//! FITS header parsing: ordered keyword/value cards with typed access.

use vstd::prelude::*;
use vstd::utf8::*;

use crate::fits::{FitsError, FitsErrorView, BLOCK, CARD, CARDS_PER_BLOCK};
use crate::text::{
    all_digits, ascii_lower, chars_eq, chars_of, find_char, find_first, lemma_find_first,
    parse_i64, parse_i64_spec, debug_bytes, debug_bytes_text, sign_len, str_from_utf8, string_of, sub_chars, to_ascii_lower,
    trim, trim_end, trim_end_index, trim_end_len, trim_start, trim_start_index, trim_start_len,
};

verus! {

/// A parsed header card value.
#[derive(Debug, Clone, PartialEq)]
pub enum Value {
    Str(String),
    Bool(bool),
    Int(i64),
    /// A number in `f64` syntax that is not an `i64`, kept as written;
    /// `str::parse::<f64>` accepts the text.
    Float(String),
    /// Value section present but unparseable; kept verbatim.
    Raw(String),
}

/// What a `Value` holds.
pub enum ValueView {
    Str(Seq<char>),
    Bool(bool),
    Int(i64),
    Float(Seq<char>),
    Raw(Seq<char>),
}

impl View for Value {
    type V = ValueView;

    open spec fn view(&self) -> ValueView {
        match self {
            Value::Str(s) => ValueView::Str(s@),
            Value::Bool(b) => ValueView::Bool(*b),
            Value::Int(i) => ValueView::Int(*i),
            Value::Float(s) => ValueView::Float(s@),
            Value::Raw(s) => ValueView::Raw(s@),
        }
    }
}

/// The text of a quoted string after its opening quote: up to the first
/// single quote, with doubled quotes standing for one.
pub open spec fn unquote(s: Seq<char>) -> Seq<char>
    decreases s.len(),
{
    if s.len() == 0 {
        seq![]
    } else if s[0] == '\'' {
        if s.len() > 1 && s[1] == '\'' {
            seq!['\''] + unquote(s.skip(2))
        } else {
            seq![]
        }
    } else {
        seq![s[0]] + unquote(s.drop_first())
    }
}

/// `s` with ASCII letters lowered.
pub open spec fn lower(s: Seq<char>) -> Seq<char> {
    s.map_values(|c: char| ascii_lower(c))
}

/// Mantissa of an `f64` literal: digits with at most one `.`, and at least
/// one digit.
pub open spec fn mantissa_ok(m: Seq<char>) -> bool {
    let d = find_first(m, '.');
    if d == m.len() {
        m.len() > 0 && all_digits(m)
    } else {
        &&& all_digits(m.take(d as int))
        &&& all_digits(m.skip(d + 1int))
        &&& (d > 0 || m.len() > d + 1)
    }
}

/// Exponent of an `f64` literal (after the `e`): optional sign, digits.
pub open spec fn exponent_ok(x: Seq<char>) -> bool {
    let y = x.skip(sign_len(x) as int);
    y.len() > 0 && all_digits(y)
}

/// A lowered, unsigned `f64` number: mantissa, then optionally `e` and an
/// exponent.
pub open spec fn number_ok(l: Seq<char>) -> bool {
    let e = find_first(l, 'e');
    mantissa_ok(l.take(e as int)) && (e == l.len() || exponent_ok(l.skip(e + 1int)))
}

/// Whether `str::parse::<f64>` accepts `s`: an optional sign, then `inf`,
/// `infinity`, `nan` (any ASCII case) or a decimal number.
pub open spec fn is_float_text(s: Seq<char>) -> bool {
    let l = lower(s.skip(sign_len(s) as int));
    ||| l == "inf"@
    ||| l == "infinity"@
    ||| l == "nan"@
    ||| number_ok(l)
}

/// The value a card's value section (everything after `"= "`) holds.
pub open spec fn parse_value_spec(raw: Seq<char>) -> ValueView {
    let r = trim_start(raw);
    if r.len() > 0 && r[0] == '\'' {
        ValueView::Str(trim_end(unquote(r.drop_first())))
    } else {
        let val = trim(r.take(find_first(r, '/') as int));
        if val == seq!['T'] {
            ValueView::Bool(true)
        } else if val == seq!['F'] {
            ValueView::Bool(false)
        } else if val.len() == 0 {
            ValueView::Raw(seq![])
        } else {
            match parse_i64_spec(val) {
                Some(i) => ValueView::Int(i),
                None => if is_float_text(val) {
                    ValueView::Float(val)
                } else {
                    ValueView::Raw(val)
                },
            }
        }
    }
}

proof fn lemma_subrange_skip(s: Seq<char>, a: int, b: int, k: int)
    requires
        0 <= a <= b <= s.len(),
        0 <= k <= b - a,
    ensures
        s.subrange(a, b).skip(k) == s.subrange(a + k, b),
        s.subrange(a, b).take(k) == s.subrange(a, a + k),
{
    assert(s.subrange(a, b).skip(k) =~= s.subrange(a + k, b));
    assert(s.subrange(a, b).take(k) =~= s.subrange(a, a + k));
}

/// The unquoted text of `v[from..to]`.
fn unquote_chars(v: &Vec<char>, from: usize, to: usize) -> (r: Vec<char>)
    requires
        from <= to <= v.len(),
    ensures
        r@ == unquote(v@.subrange(from as int, to as int)),
{
    let mut out: Vec<char> = Vec::new();
    let mut j = from;
    while j < to
        invariant
            from <= j <= to <= v.len(),
            unquote(v@.subrange(from as int, to as int)) == out@ + unquote(
                v@.subrange(j as int, to as int),
            ),
        decreases to - j,
    {
        let ghost rest = v@.subrange(j as int, to as int);
        if v[j] == '\'' {
            if j + 1 < to && v[j + 1] == '\'' {
                out.push('\'');
                assert(rest.skip(2) =~= v@.subrange(j + 2, to as int));
                j = j + 2;
                assert(unquote(rest) == seq!['\''] + unquote(rest.skip(2)));
            } else {
                assert(unquote(rest) =~= Seq::<char>::empty());
                assert(out@ + unquote(rest) =~= out@);
                return out;
            }
        } else {
            out.push(v[j]);
            assert(rest.drop_first() =~= v@.subrange(j + 1, to as int));
            j = j + 1;
        }
    }
    assert(unquote(v@.subrange(j as int, to as int)) =~= Seq::<char>::empty());
    assert(out@ + Seq::<char>::empty() =~= out@);
    out
}

/// Whether all of `v[from..to]` are ASCII digits.
fn digits_only(v: &Vec<char>, from: usize, to: usize) -> (r: bool)
    requires
        from <= to <= v.len(),
    ensures
        r == all_digits(v@.subrange(from as int, to as int)),
{
    let mut j = from;
    while j < to
        invariant
            from <= j <= to <= v.len(),
            forall|i: int| from <= i < j ==> '0' <= #[trigger] v@[i] <= '9',
        decreases to - j,
    {
        if !('0' <= v[j] && v[j] <= '9') {
            assert(v@.subrange(from as int, to as int)[j - from] == v@[j as int]);
            return false;
        }
        j = j + 1;
    }
    assert forall|i: int| 0 <= i < v@.subrange(from as int, to as int).len() implies crate::text::is_ascii_digit(
        #[trigger] v@.subrange(from as int, to as int)[i],
    ) by {
        assert(v@.subrange(from as int, to as int)[i] == v@[from + i]);
    }
    true
}

/// `mantissa_ok` of `l[from..to]`.
fn mantissa_check(l: &Vec<char>, from: usize, to: usize) -> (r: bool)
    requires
        from <= to <= l.len(),
    ensures
        r == mantissa_ok(l@.subrange(from as int, to as int)),
{
    let ghost m = l@.subrange(from as int, to as int);
    let d = find_char(l, from, to, '.');
    proof { lemma_subrange_skip(l@, from as int, to as int, d - from); }
    if d == to {
        to > from && digits_only(l, from, to)
    } else {
        proof { lemma_subrange_skip(l@, from as int, to as int, d - from + 1); }
        digits_only(l, from, d) && digits_only(l, d + 1, to) && (d > from || to > d + 1)
    }
}

/// `exponent_ok` of `l[from..to]`.
fn exponent_check(l: &Vec<char>, from: usize, to: usize) -> (r: bool)
    requires
        from <= to <= l.len(),
    ensures
        r == exponent_ok(l@.subrange(from as int, to as int)),
{
    let ghost x = l@.subrange(from as int, to as int);
    let b = if from < to && (l[from] == '+' || l[from] == '-') {
        from + 1
    } else {
        from
    };
    proof { lemma_subrange_skip(l@, from as int, to as int, b - from); }
    b < to && digits_only(l, b, to)
}

/// Whether `str::parse::<f64>` accepts `v[from..to]`.
fn float_text(v: &Vec<char>, from: usize, to: usize) -> (r: bool)
    requires
        from <= to <= v.len(),
    ensures
        r == is_float_text(v@.subrange(from as int, to as int)),
{
    let ghost s = v@.subrange(from as int, to as int);
    let b = if from < to && (v[from] == '+' || v[from] == '-') {
        from + 1
    } else {
        from
    };
    proof { lemma_subrange_skip(v@, from as int, to as int, b - from); }
    let mut l: Vec<char> = Vec::new();
    let mut j = b;
    while j < to
        invariant
            b <= j <= to <= v.len(),
            l@ == lower(v@.subrange(b as int, j as int)),
        decreases to - j,
    {
        l.push(to_ascii_lower(v[j]));
        j = j + 1;
        assert(l@ =~= lower(v@.subrange(b as int, j as int)));
    }
    let inf = chars_of("inf");
    let infinity = chars_of("infinity");
    let nan = chars_of("nan");
    if chars_eq(&l, &inf) || chars_eq(&l, &infinity) || chars_eq(&l, &nan) {
        return true;
    }
    let n = l.len();
    let e = find_char(&l, 0, n, 'e');
    assert(l@.subrange(0, n as int) =~= l@);
    proof { lemma_subrange_skip(l@, 0, n as int, e as int); }
    if !mantissa_check(&l, 0, e) {
        return false;
    }
    if e == n {
        return true;
    }
    proof { lemma_subrange_skip(l@, 0, n as int, e + 1); }
    exponent_check(&l, e + 1, n)
}

/// Parse the value section of a card (everything after "= ").
fn parse_value(raw: &Vec<char>) -> (v: Value)
    ensures
        v@ == parse_value_spec(raw@),
{
    let n = raw.len();
    let s = trim_start_index(raw, 0, n);
    assert(raw@.subrange(0, n as int) =~= raw@);
    let ghost r = trim_start(raw@);
    assert(r =~= raw@.subrange(s as int, n as int));
    if s < n && raw[s] == '\'' {
        assert(r.drop_first() =~= raw@.subrange(s + 1, n as int));
        let u = unquote_chars(raw, s + 1, n);
        let un = u.len();
        let e = trim_end_index(&u, 0, un);
        assert(u@.subrange(0, un as int) =~= u@);
        return Value::Str(string_of(sub_chars(&u, 0, e)));
    }
    let slash = find_char(raw, s, n, '/');
    assert(r.take(find_first(r, '/') as int) =~= raw@.subrange(s as int, slash as int));
    let a = trim_start_index(raw, s, slash);
    let e = trim_end_index(raw, a, slash);
    let ghost seg = raw@.subrange(s as int, slash as int);
    assert(trim_start(seg) =~= raw@.subrange(a as int, slash as int));
    assert(trim(seg) =~= raw@.subrange(a as int, e as int));
    let val = sub_chars(raw, a, e);
    if val.len() == 1 && val[0] == 'T' {
        assert(val@ =~= seq!['T']);
        return Value::Bool(true);
    }
    if val.len() == 1 && val[0] == 'F' {
        assert(val@ =~= seq!['F']);
        return Value::Bool(false);
    }
    if val.len() == 0 {
        assert(val@ =~= Seq::<char>::empty());
        return Value::Raw(string_of(val));
    }
    proof {
        if val@ == seq!['T'] {
            assert(val@[0] == 'T');
        }
        if val@ == seq!['F'] {
            assert(val@[0] == 'F');
        }
    }
    match parse_i64(raw, a, e) {
        Some(i) => Value::Int(i),
        None => if float_text(raw, a, e) {
            Value::Float(string_of(val))
        } else {
            Value::Raw(string_of(val))
        },
    }
}

/// A keyword and its value.
pub type Entry = (Seq<char>, ValueView);

/// What one 80-byte card contributes to a header.
pub enum CardKind {
    /// The END card.
    End,
    /// Blank, commentary or valueless: nothing to record.
    Skip,
    Entry(Seq<char>, ValueView),
    Bad(FitsErrorView),
}

pub open spec fn all_spaces(b: Seq<u8>) -> bool {
    forall|i: int| 0 <= i < b.len() ==> #[trigger] b[i] == 0x20u8
}

/// How the reader treats one card.
pub open spec fn classify(card: Seq<u8>) -> CardKind {
    let kb = card.take(8);
    if !valid_utf8(kb) {
        CardKind::Bad(FitsErrorView::BadCard(debug_bytes(kb)))
    } else {
        let key = trim_end(decode_utf8(kb));
        if key == "END"@ && all_spaces(card.skip(8)) {
            CardKind::End
        } else if key.len() == 0 || key == "COMMENT"@ || key == "HISTORY"@ {
            CardKind::Skip
        } else if card[8] == 0x3Du8 {
            let rb = card.skip(9);
            if !valid_utf8(rb) {
                CardKind::Bad(FitsErrorView::BadCard(key))
            } else {
                CardKind::Entry(key, parse_value_spec(decode_utf8(rb)))
            }
        } else {
            CardKind::Skip
        }
    }
}

/// The card at `pos`.
pub open spec fn card_at(buf: Seq<u8>, pos: int) -> Seq<u8> {
    buf.subrange(pos, pos + CARD)
}

pub enum ScanStep {
    Ended(Seq<Entry>),
    Continue(Seq<Entry>),
    Failed(FitsErrorView),
}

/// Cards `i..36` of the block at `off`, appended to `acc`.
pub open spec fn block_scan(buf: Seq<u8>, off: int, i: int, acc: Seq<Entry>) -> ScanStep
    decreases CARDS_PER_BLOCK - i,
{
    if i >= CARDS_PER_BLOCK {
        ScanStep::Continue(acc)
    } else {
        match classify(card_at(buf, off + i * CARD)) {
            CardKind::End => ScanStep::Ended(acc),
            CardKind::Skip => block_scan(buf, off, i + 1, acc),
            CardKind::Entry(k, v) => block_scan(buf, off, i + 1, acc.push((k, v))),
            CardKind::Bad(e) => ScanStep::Failed(e),
        }
    }
}

/// Longest header accepted, in bytes past its start.
pub open spec fn header_limit() -> int {
    10485760int
}

/// Read blocks from `off` on (the header started at `start`) until END:
/// the entries and the offset of the data that follows.
pub open spec fn header_scan(buf: Seq<u8>, start: int, off: int, acc: Seq<Entry>) -> Result<(Seq<Entry>, int), FitsErrorView>
    decreases buf.len() - off,
{
    if off < 0 || off + BLOCK > buf.len() {
        Err(FitsErrorView::Truncated(off as usize))
    } else {
        match block_scan(buf, off, 0, acc) {
            ScanStep::Failed(e) => Err(e),
            ScanStep::Ended(a) => Ok((a, off + BLOCK)),
            ScanStep::Continue(a) => if off + BLOCK - start > header_limit() {
                Err(FitsErrorView::BadCard("unterminated header"@))
            } else {
                header_scan(buf, start, off + BLOCK, a)
            },
        }
    }
}

/// What reading one card yields.
enum CardRead {
    End,
    Skip,
    Entry(String, Value),
    Bad(FitsError),
}

pub fn spaces_only(b: &[u8], from: usize) -> (r: bool)
    requires
        from <= b@.len(),
    ensures
        r == all_spaces(b@.skip(from as int)),
{
    let mut j = from;
    while j < b.len()
        invariant
            from <= j <= b@.len(),
            forall|i: int| from <= i < j ==> #[trigger] b@[i] == 0x20u8,
        decreases b.len() - j,
    {
        if b[j] != 0x20u8 {
            assert(b@.skip(from as int)[j - from] == b@[j as int]);
            return false;
        }
        j = j + 1;
    }
    assert forall|i: int| 0 <= i < b@.skip(from as int).len() implies #[trigger] b@.skip(from as int)[i] == 0x20u8 by {
        assert(b@.skip(from as int)[i] == b@[from + i]);
    }
    true
}

fn read_card(card: &[u8]) -> (r: CardRead)
    requires
        card@.len() == CARD,
    ensures
        match classify(card@) {
            CardKind::End => r is End,
            CardKind::Skip => r is Skip,
            CardKind::Entry(k, v) => r matches CardRead::Entry(rk, rv) && rk@ == k && rv@ == v,
            CardKind::Bad(e) => r matches CardRead::Bad(re) && re@ == e,
        },
{
    let kb = &card[0..8];
    assert(kb@ =~= card@.take(8));
    let ks = match str_from_utf8(kb) {
        Some(s) => s,
        None => return CardRead::Bad(FitsError::BadCard(debug_bytes_text(kb))),
    };
    let kc = chars_of(ks);
    let kn = kc.len();
    let ke = trim_end_index(&kc, 0, kn);
    assert(kc@.subrange(0, kn as int) =~= kc@);
    let key = sub_chars(&kc, 0, ke);
    assert(key@ =~= trim_end(decode_utf8(card@.take(8))));
    let end_word = chars_of("END");
    if chars_eq(&key, &end_word) && spaces_only(card, 8) {
        return CardRead::End;
    }
    let comment_word = chars_of("COMMENT");
    let history_word = chars_of("HISTORY");
    if key.len() == 0 || chars_eq(&key, &comment_word) || chars_eq(&key, &history_word) {
        return CardRead::Skip;
    }
    if card[8] == 0x3Du8 {
        let rb = &card[9..CARD];
        assert(rb@ =~= card@.skip(9));
        match str_from_utf8(rb) {
            Some(rs) => {
                let raw = chars_of(rs);
                let v = parse_value(&raw);
                CardRead::Entry(string_of(key), v)
            },
            None => CardRead::Bad(FitsError::BadCard(string_of(key))),
        }
    } else {
        CardRead::Skip
    }
}

/// A FITS header: ordered cards with typed access by keyword.
#[derive(Debug, Clone, Default)]
pub struct Header {
    /// Keyword/value pairs in header order.
    pub cards: Vec<(String, Value)>,
    /// Number of 2880-byte blocks this header occupied on disk.
    pub nblocks: usize,
}

/// The views of keyword/value pairs.
pub open spec fn entries_of(cards: Seq<(String, Value)>) -> Seq<Entry> {
    cards.map_values(|c: (String, Value)| (c.0@, c.1@))
}

/// The first value recorded under `key`.
pub open spec fn lookup(entries: Seq<Entry>, key: Seq<char>) -> Option<ValueView>
    decreases entries.len(),
{
    if entries.len() == 0 {
        None
    } else if entries[0].0 == key {
        Some(entries[0].1)
    } else {
        lookup(entries.drop_first(), key)
    }
}

impl Header {
    /// The keyword/value pairs, in header order.
    pub open spec fn entries(&self) -> Seq<Entry> {
        entries_of(self.cards@)
    }

    /// Parse a header starting at `off` in `buf`. Returns the header and the
    /// byte offset of the data section that follows it.
    pub fn parse(buf: &[u8], off: usize) -> (r: Result<(Header, usize), FitsError>)
        ensures
            match r {
                Ok(p) => {
                    &&& header_scan(buf@, off as int, off as int, seq![]) == Ok::<(Seq<Entry>, int), FitsErrorView>((p.0.entries(), p.1 as int))
                    &&& p.1 == off + p.0.nblocks * BLOCK
                    &&& p.1 <= buf@.len()
                    &&& p.0.nblocks >= 1
                },
                Err(e) => header_scan(buf@, off as int, off as int, seq![]) == Err::<(Seq<Entry>, int), FitsErrorView>(e@),
            },
    {
        let start = off;
        let mut at = off;
        let mut cards: Vec<(String, Value)> = Vec::new();
        let mut nblocks: usize = 0;
        assert(entries_of(cards@) =~= seq![]);
        loop
            invariant_except_break
                at - start <= header_limit(),
                header_scan(buf@, start as int, start as int, seq![]) == header_scan(buf@, start as int, at as int, entries_of(cards@)),
            invariant
                start == off,
                start <= at,
                at == start + nblocks * BLOCK,
            ensures
                nblocks >= 1,
                at <= buf@.len(),
                header_scan(buf@, start as int, start as int, seq![]) == Ok::<(Seq<Entry>, int), FitsErrorView>((entries_of(cards@), at as int)),
            decreases buf@.len() - at,
        {
            if buf.len() < BLOCK || at > buf.len() - BLOCK {
                assert(header_scan(buf@, start as int, at as int, entries_of(cards@)) == Err::<(Seq<Entry>, int), FitsErrorView>(FitsErrorView::Truncated(at)));
                assert(header_scan(buf@, start as int, start as int, seq![]) == Err::<(Seq<Entry>, int), FitsErrorView>(FitsErrorView::Truncated(at)));
                return Err(FitsError::Truncated(at));
            }
            let mut end_found = false;
            let mut i: usize = 0;
            let ghost acc0 = entries_of(cards@);
            while i < CARDS_PER_BLOCK
                invariant_except_break
                    !end_found,
                invariant
                    i <= CARDS_PER_BLOCK,
                    at + BLOCK <= buf@.len(),
                    block_scan(buf@, at as int, 0, acc0) == block_scan(buf@, at as int, i as int, entries_of(cards@)),
                    buf@.len() <= usize::MAX,
                    start == off,
                    header_scan(buf@, start as int, start as int, seq![]) == header_scan(buf@, start as int, at as int, acc0),
                ensures
                    end_found ==> block_scan(buf@, at as int, 0, acc0) == ScanStep::Ended(entries_of(cards@)),
                    !end_found ==> block_scan(buf@, at as int, 0, acc0) == ScanStep::Continue(entries_of(cards@)),
                decreases CARDS_PER_BLOCK - i,
            {
                assert(i * CARD + CARD <= BLOCK) by (nonlinear_arith)
                    requires
                        i < CARDS_PER_BLOCK,
                        CARD == 80,
                        BLOCK == 2880,
                        CARDS_PER_BLOCK == 36,
                ;
                let pos = at + i * CARD;
                let card = &buf[pos..pos + CARD];
                assert(card@ =~= card_at(buf@, pos as int));
                match read_card(card) {
                    CardRead::End => {
                        end_found = true;
                        break;
                    },
                    CardRead::Skip => {},
                    CardRead::Entry(k, v) => {
                        let ghost before = cards@;
                        cards.push((k, v));
                        assert(entries_of(cards@) =~= entries_of(before).push((k@, v@)));
                    },
                    CardRead::Bad(e) => {
                        return Err(e);
                    },
                }
                i = i + 1;
            }
            at = at + BLOCK;
            nblocks = nblocks + 1;
            if end_found {
                break;
            }
            if at - start > 10485760 {
                assert(header_scan(buf@, start as int, (at - BLOCK) as int, acc0) == Err::<(Seq<Entry>, int), FitsErrorView>(FitsErrorView::BadCard("unterminated header"@)));
                return Err(FitsError::BadCard("unterminated header".to_owned()));
            }
        }
        Ok((Header { cards, nblocks }, at))
    }

    pub fn get(&self, key: &str) -> (r: Option<&Value>)
        ensures
            match r {
                Some(v) => lookup(self.entries(), key@) == Some(v@),
                None => lookup(self.entries(), key@) is None,
            },
    {
        let k = key.to_owned();
        let mut i: usize = 0;
        assert(entries_of(self.cards@).skip(0) =~= entries_of(self.cards@));
        while i < self.cards.len()
            invariant
                i <= self.cards@.len(),
                k@ == key@,
                lookup(self.entries(), key@) == lookup(entries_of(self.cards@).skip(i as int), key@),
            decreases self.cards.len() - i,
        {
            assert(entries_of(self.cards@).skip(i as int).drop_first() =~= entries_of(self.cards@).skip(i + 1));
            if self.cards[i].0 == k {
                return Some(&self.cards[i].1);
            }
            i = i + 1;
        }
        None
    }

    pub fn get_str(&self, key: &str) -> (r: Option<&str>)
        ensures
            match r {
                Some(s) => lookup(self.entries(), key@) == Some(ValueView::Str(s@)),
                None => !(lookup(self.entries(), key@) matches Some(ValueView::Str(_))),
            },
    {
        match self.get(key) {
            Some(v) => v.as_str(),
            None => None,
        }
    }

    pub fn get_i64(&self, key: &str) -> (r: Option<i64>)
        ensures
            match r {
                Some(i) => lookup(self.entries(), key@) == Some(ValueView::Int(i)),
                None => !(lookup(self.entries(), key@) matches Some(ValueView::Int(_))),
            },
    {
        match self.get(key) {
            Some(v) => v.as_i64(),
            None => None,
        }
    }

    pub fn get_bool(&self, key: &str) -> (r: Option<bool>)
        ensures
            match r {
                Some(b) => lookup(self.entries(), key@) == Some(ValueView::Bool(b)),
                None => !(lookup(self.entries(), key@) matches Some(ValueView::Bool(_))),
            },
    {
        match self.get(key) {
            Some(v) => v.as_bool(),
            None => None,
        }
    }

    /// The text of a numeric card whose value is not an integer.
    pub fn get_float_text(&self, key: &str) -> (r: Option<&str>)
        ensures
            match r {
                Some(s) => lookup(self.entries(), key@) == Some(ValueView::Float(s@)),
                None => !(lookup(self.entries(), key@) matches Some(ValueView::Float(_))),
            },
    {
        match self.get(key) {
            Some(Value::Float(s)) => Some(s.as_str()),
            _ => None,
        }
    }

    pub fn req_i64(&self, key: &str) -> (r: Result<i64, FitsError>)
        ensures
            match r {
                Ok(i) => lookup(self.entries(), key@) == Some(ValueView::Int(i)),
                Err(e) => !(lookup(self.entries(), key@) matches Some(ValueView::Int(_))) && e@ == FitsErrorView::MissingCard(key@),
            },
    {
        match self.get_i64(key) {
            Some(i) => Ok(i),
            None => Err(FitsError::MissingCard(key.to_owned())),
        }
    }

    pub fn cards(&self) -> (r: &[(String, Value)])
        ensures
            entries_of(r@) == self.entries(),
    {
        self.cards.as_slice()
    }
}

impl Value {
    pub fn as_str(&self) -> (r: Option<&str>)
        ensures
            match r {
                Some(s) => self@ == ValueView::Str(s@),
                None => !(self@ is Str),
            },
    {
        match self {
            Value::Str(s) => Some(s.as_str()),
            _ => None,
        }
    }

    /// The integer an `Int` value holds.
    pub fn as_i64(&self) -> (r: Option<i64>)
        ensures
            match r {
                Some(i) => self@ == ValueView::Int(i),
                None => !(self@ is Int),
            },
    {
        match self {
            Value::Int(i) => Some(*i),
            _ => None,
        }
    }

    pub fn as_bool(&self) -> (r: Option<bool>)
        ensures
            match r {
                Some(b) => self@ == ValueView::Bool(b),
                None => !(self@ is Bool),
            },
    {
        match self {
            Value::Bool(b) => Some(*b),
            _ => None,
        }
    }
}

} // verus!
