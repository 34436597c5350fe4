//! FITS header cards as the writer emits them, and whole header blocks.

use vstd::prelude::*;
use vstd::utf8::*;

use crate::fits::header::{all_spaces, spaces_only};
use crate::fits::hdu::{fits_spec, int_card, Fits, HduView};
use crate::fits::{FitsError, FitsErrorView, BLOCK, CARD};
use crate::text::{
    chars_of, int_text, pad_left, pad_right, push_all, push_int, push_pad_left, push_pad_right,
    str_from_utf8, string_of, sub_chars, trim_end, trim_end_index,
};

verus! {

/// A header card to serialize.
///
/// `value` is the value field already justified into columns 11-30 (numbers
/// right, strings left, as the fixed format requires); `None` marks a
/// commentary card, whose text occupies columns 9-80 instead.
#[derive(Debug, Clone, PartialEq, Eq)]
pub struct Card {
    pub key: String,
    pub value: Option<String>,
    pub comment: String,
}

/// `"= "`
pub open spec fn value_indicator() -> Seq<char> {
    seq!['=', ' ']
}

/// `" / "`
pub open spec fn comment_separator() -> Seq<char> {
    seq![' ', '/', ' ']
}

/// Printable ASCII passes; every other byte becomes a space.
pub open spec fn sanitize(b: u8) -> u8 {
    if 0x20 <= b < 0x7f {
        b
    } else {
        0x20
    }
}

/// The 80-byte card image of a text's UTF-8 bytes: sanitized, cut at 80,
/// and padded with spaces.
pub open spec fn card_image(bytes: Seq<u8>) -> Seq<u8> {
    Seq::new(CARD as nat, |i: int| if i < bytes.len() { sanitize(bytes[i]) } else { 0x20u8 })
}

/// The value field of an integer card: the decimal right-justified to 20.
pub open spec fn int_field(v: int) -> Seq<char> {
    pad_left(int_text(v), 20)
}

/// The value field of a logical card.
pub open spec fn bool_field(v: bool) -> Seq<char> {
    pad_left(if v { seq!['T'] } else { seq!['F'] }, 20)
}

/// Every `'` doubled, as FITS strings escape quotes.
pub open spec fn escape_quotes(s: Seq<char>) -> Seq<char>
    decreases s.len(),
{
    if s.len() == 0 {
        seq![]
    } else if s[0] == '\'' {
        seq!['\'', '\''] + escape_quotes(s.drop_first())
    } else {
        seq![s[0]] + escape_quotes(s.drop_first())
    }
}

/// The value field of a string card: quoted, at least eight characters
/// inside the quotes, left-justified to 20.
pub open spec fn string_field(s: Seq<char>) -> Seq<char> {
    pad_right(seq!['\''] + pad_right(escape_quotes(s), 8) + seq!['\''], 20)
}

/// `"COMMENT"`
pub open spec fn comment_key() -> Seq<char> {
    seq!['C', 'O', 'M', 'M', 'E', 'N', 'T']
}

/// `"END"` followed by 77 spaces.
pub open spec fn end_card() -> Seq<u8> {
    Seq::new(CARD as nat, |i: int| if i == 0 { 0x45u8 } else if i == 1 { 0x4Eu8 } else if i == 2 { 0x44u8 } else { 0x20u8 })
}

/// Round `n` up to a whole number of blocks.
pub open spec fn block_round(n: nat) -> nat {
    if n % (BLOCK as nat) == 0 {
        n
    } else {
        (n / (BLOCK as nat) + 1) * (BLOCK as nat)
    }
}

/// What a card holds, as plain sequences: keyword, value field (`None` for
/// commentary), comment.
pub type CardParts = (Seq<char>, Option<Seq<char>>, Seq<char>);

/// The card's text before it is cut to 80 bytes.
pub open spec fn card_text(p: CardParts) -> Seq<char> {
    let k = pad_right(p.0, 8);
    match p.1 {
        Some(v) => if p.2.len() == 0 {
            k + value_indicator() + v
        } else {
            k + value_indicator() + v + comment_separator() + p.2
        },
        None => k + seq![' '] + p.2,
    }
}

/// The 80 bytes a card writes.
pub open spec fn card_bytes(p: CardParts) -> Seq<u8> {
    card_image(encode_utf8(card_text(p)))
}

/// The images of `cards`, one after another.
pub open spec fn cards_image(cards: Seq<CardParts>) -> Seq<u8>
    decreases cards.len(),
{
    if cards.len() == 0 {
        seq![]
    } else {
        cards_image(cards.drop_last()) + card_bytes(cards.last())
    }
}

/// Padding that brings `n` bytes to a whole number of blocks.
pub open spec fn block_padding(n: nat) -> Seq<u8> {
    Seq::new((block_round(n) - n) as nat, |i: int| 0x20u8)
}

/// A header: the cards, END, and space padding to whole blocks.
pub open spec fn header_image(cards: Seq<CardParts>) -> Seq<u8> {
    let body = cards_image(cards) + end_card();
    body + block_padding(body.len())
}

/// The parts of each card.
pub open spec fn parts_of(cards: Seq<Card>) -> Seq<CardParts> {
    cards.map_values(|c: Card| c.parts())
}

/// The cards that open a header-only primary HDU.
pub open spec fn primary_parts() -> Seq<CardParts> {
    seq![
        ("SIMPLE"@, Some(bool_field(true)), "conforms to the FITS standard"@),
        ("BITPIX"@, Some(int_field(8)), "no data, minimum width"@),
        ("NAXIS"@, Some(int_field(0)), "no data"@),
        ("EXTEND"@, Some(bool_field(true)), ""@),
    ]
}

impl Card {
    /// The card's text before it is cut to 80 bytes.
    pub open spec fn text(&self) -> Seq<char> {
        card_text(self.parts())
    }

    /// The 80 bytes this card writes.
    pub open spec fn image(&self) -> Seq<u8> {
        card_bytes(self.parts())
    }

    /// A card whose value field is `v` exactly.
    pub open spec fn valued(key: Seq<char>, v: Seq<char>, comment: Seq<char>) -> (Seq<char>, Option<Seq<char>>, Seq<char>) {
        (key, Some(v), comment)
    }

    pub open spec fn parts(&self) -> (Seq<char>, Option<Seq<char>>, Seq<char>) {
        (self.key@, match self.value { Some(v) => Some(v@), None => None }, self.comment@)
    }

    /// A card with a pre-justified value field.
    fn new(key: &str, value: String, comment: &str) -> (c: Card)
        ensures
            c.parts() == Card::valued(key@, value@, comment@),
    {
        Card { key: key.to_owned(), value: Some(value), comment: comment.to_owned() }
    }

    /// An integer card, the value right-justified in columns 11-30.
    pub fn integer(key: &str, v: i64, comment: &str) -> (c: Card)
        ensures
            c.parts() == Card::valued(key@, int_field(v as int), comment@),
    {
        let mut digits: Vec<char> = Vec::new();
        push_int(v, &mut digits);
        let mut field: Vec<char> = Vec::new();
        push_pad_left(&digits, 20, &mut field);
        assert(field@ =~= int_field(v as int));
        Card::new(key, string_of(field), comment)
    }

    /// A logical card: `T` or `F` right-justified in columns 11-30.
    pub fn bool(key: &str, v: bool, comment: &str) -> (c: Card)
        ensures
            c.parts() == Card::valued(key@, bool_field(v), comment@),
    {
        let mut letter: Vec<char> = Vec::new();
        letter.push(if v { 'T' } else { 'F' });
        let mut field: Vec<char> = Vec::new();
        push_pad_left(&letter, 20, &mut field);
        assert(field@ =~= bool_field(v));
        Card::new(key, string_of(field), comment)
    }

    /// A single-quoted string card, padded to the eight-character minimum
    /// the standard mandates inside the quotes.
    pub fn string(key: &str, v: &str, comment: &str) -> (c: Card)
        ensures
            c.parts() == Card::valued(key@, string_field(v@), comment@),
    {
        let chars = chars_of(v);
        let mut escaped: Vec<char> = Vec::new();
        let mut i: usize = 0;
        while i < chars.len()
            invariant
                i <= chars.len(),
                escaped@ == escape_quotes(chars@.take(i as int)),
            decreases chars.len() - i,
        {
            proof {
                lemma_escape_quotes_push(chars@.take(i as int), chars@[i as int]);
                assert(chars@.take(i + 1) =~= chars@.take(i as int).push(chars@[i as int]));
            }
            if chars[i] == '\'' {
                escaped.push('\'');
                escaped.push('\'');
            } else {
                escaped.push(chars[i]);
            }
            i = i + 1;
        }
        assert(chars@.take(chars.len() as int) =~= chars@);
        let mut inner: Vec<char> = Vec::new();
        inner.push('\'');
        push_pad_right(&escaped, 8, &mut inner);
        inner.push('\'');
        let mut field: Vec<char> = Vec::new();
        push_pad_right(&inner, 20, &mut field);
        assert(inner@ =~= seq!['\''] + pad_right(escape_quotes(v@), 8) + seq!['\'']);
        Card::new(key, string_of(field), comment)
    }

    /// A commentary card: `COMMENT` followed by free text.
    pub fn comment(text: &str) -> (c: Card)
        ensures
            c.parts() == (comment_key(), None::<Seq<char>>, text@),
    {
        let mut key: Vec<char> = Vec::new();
        key.push('C');
        key.push('O');
        key.push('M');
        key.push('M');
        key.push('E');
        key.push('N');
        key.push('T');
        assert(key@ =~= comment_key());
        Card { key: string_of(key), value: None, comment: text.to_owned() }
    }

    /// A copy with the same parts.
    pub fn clone_card(&self) -> (c: Card)
        ensures
            c.parts() == self.parts(),
    {
        Card {
            key: self.key.clone(),
            value: match &self.value {
                Some(v) => Some(v.clone()),
                None => None,
            },
            comment: self.comment.clone(),
        }
    }

    /// The characters of the card text, as `text` specifies.
    fn text_chars(&self) -> (t: Vec<char>)
        ensures
            t@ == self.text(),
    {
        let key = chars_of(self.key.as_str());
        let mut t: Vec<char> = Vec::new();
        push_pad_right(&key, 8, &mut t);
        let comment = chars_of(self.comment.as_str());
        match &self.value {
            Some(v) => {
                t.push('=');
                t.push(' ');
                let vc = chars_of(v.as_str());
                push_all(&vc, &mut t);
                if comment.len() > 0 {
                    t.push(' ');
                    t.push('/');
                    t.push(' ');
                    push_all(&comment, &mut t);
                }
            },
            None => {
                t.push(' ');
                push_all(&comment, &mut t);
            },
        }
        assert(t@ =~= card_text(self.parts()));
        t
    }

    /// The 80-byte fixed-length card. FITS headers are ASCII: anything else
    /// (and any control character) becomes a space rather than an invalid
    /// file.
    pub fn to_bytes(&self) -> (out: [u8; CARD])
        ensures
            out@ == self.image(),
    {
        let text = string_of(self.text_chars());
        let bytes = text.as_str().as_bytes();
        let mut out = [0x20u8; 80];
        let mut i: usize = 0;
        while i < CARD
            invariant
                i <= CARD,
                bytes@ == encode_utf8(self.text()),
                out@.len() == CARD,
                forall|j: int| 0 <= j < i ==> out@[j] == card_image(bytes@)[j],
                forall|j: int| i <= j < CARD ==> out@[j] == 0x20u8,
            decreases CARD - i,
        {
            if i < bytes.len() {
                let b = bytes[i];
                out[i] = if 0x20 <= b && b < 0x7f { b } else { 0x20u8 };
            }
            i = i + 1;
        }
        assert(out@ =~= card_image(bytes@));
        out
    }
}

proof fn lemma_escape_quotes_push(s: Seq<char>, c: char)
    ensures
        escape_quotes(s.push(c)) == escape_quotes(s) + (if c == '\'' { seq!['\'', '\''] } else { seq![c] }),
    decreases s.len(),
{
    if s.len() == 0 {
        assert(s.push(c).drop_first() =~= s);
    } else {
        assert(s.push(c).drop_first() =~= s.drop_first().push(c));
        lemma_escape_quotes_push(s.drop_first(), c);
        assert(escape_quotes(s.push(c)) =~= escape_quotes(s) + (if c == '\'' { seq!['\'', '\''] } else { seq![c] }));
    }
}

/// `i / BLOCK * BLOCK` arithmetic behind block rounding.
pub proof fn lemma_block_round(n: nat)
    ensures
        block_round(n) >= n,
        block_round(n) % (BLOCK as nat) == 0,
        block_round(n) - n < BLOCK,
{
    if n % (BLOCK as nat) != 0 {
        assert((n / (BLOCK as nat) + 1) * (BLOCK as nat) == n / (BLOCK as nat) * (BLOCK as nat) + (BLOCK as nat)) by (nonlinear_arith);
        assert(n == n / (BLOCK as nat) * (BLOCK as nat) + n % (BLOCK as nat)) by (nonlinear_arith);
        assert(((n / (BLOCK as nat) + 1) * (BLOCK as nat)) % (BLOCK as nat) == 0) by (nonlinear_arith);
    }
}

/// The smallest multiple of `BLOCK` that is at least `n`.
pub fn round_to_block(n: usize) -> (r: usize)
    requires
        n + BLOCK <= usize::MAX,
    ensures
        r == block_round(n as nat),
{
    proof { lemma_block_round(n as nat); }
    if n % BLOCK == 0 {
        n
    } else {
        (n / BLOCK + 1) * BLOCK
    }
}

/// Append the END card and pad to a whole number of blocks.
pub fn finish_header(buf: &mut Vec<u8>)
    requires
        old(buf).len() + CARD + BLOCK <= usize::MAX,
    ensures
        final(buf)@ == {
            let body = old(buf)@ + end_card();
            body + block_padding(body.len())
        },
{
    let ghost start = buf@;
    buf.push(0x45u8);
    buf.push(0x4Eu8);
    buf.push(0x44u8);
    let mut i: usize = 3;
    while i < CARD
        invariant
            3 <= i <= CARD,
            buf@ == start + end_card().take(i as int),
        decreases CARD - i,
    {
        buf.push(0x20u8);
        i = i + 1;
        assert(buf@ =~= start + end_card().take(i as int));
    }
    assert(end_card().take(CARD as int) =~= end_card());
    let ghost body = buf@;
    let target = round_to_block(buf.len());
    proof { lemma_block_round(body.len()); }
    while buf.len() < target
        invariant
            body.len() <= buf.len() <= target,
            target == block_round(body.len()),
            buf@ == body + Seq::new((buf.len() - body.len()) as nat, |i: int| 0x20u8),
        decreases target - buf.len(),
    {
        buf.push(0x20u8);
        assert(buf@ =~= body + Seq::new((buf.len() - body.len()) as nat, |i: int| 0x20u8));
    }
}

/// Append the image of every card in `cards`.
fn push_card_images(buf: &mut Vec<u8>, cards: &[Card])
    requires
        old(buf)@.len() + cards@.len() * CARD <= usize::MAX,
    ensures
        final(buf)@ == old(buf)@ + cards_image(parts_of(cards@)),
        final(buf)@.len() == old(buf)@.len() + cards@.len() * CARD,
{
    let ghost start = buf@;
    let mut i: usize = 0;
    assert(parts_of(cards@.take(0)) =~= seq![]);
    assert(start + cards_image(seq![]) =~= start);
    while i < cards.len()
        invariant
            i <= cards@.len(),
            start.len() + cards@.len() * CARD <= usize::MAX,
            buf@ == start + cards_image(parts_of(cards@.take(i as int))),
            buf@.len() == start.len() + i * CARD,
        decreases cards.len() - i,
    {
        proof {
            assert(start.len() + (i + 1) * CARD <= start.len() + cards@.len() * CARD) by (nonlinear_arith)
                requires i + 1 <= cards@.len();
        }
        let bytes = cards[i].to_bytes();
        let mut j: usize = 0;
        let ghost before = buf@;
        while j < CARD
            invariant
                j <= CARD,
                bytes@.len() == CARD,
                buf@ == before + bytes@.take(j as int),
            decreases CARD - j,
        {
            buf.push(bytes[j]);
            j = j + 1;
            assert(buf@ =~= before + bytes@.take(j as int));
        }
        assert(bytes@.take(CARD as int) =~= bytes@);
        assert(parts_of(cards@.take(i + 1)).drop_last() =~= parts_of(cards@.take(i as int)));
        i = i + 1;
    }
    assert(cards@.take(cards@.len() as int) =~= cards@);
}

/// Serialize `cards`, append END, and pad to a whole number of 2880-byte
/// blocks.
pub fn header_block(cards: &[Card]) -> (buf: Vec<u8>)
    requires
        (cards@.len() + 1) * CARD + BLOCK <= usize::MAX,
    ensures
        buf@ == header_image(parts_of(cards@)),
        buf@.len() % (BLOCK as nat) == 0,
{
    let mut buf: Vec<u8> = Vec::new();
    proof {
        assert(cards@.len() * CARD <= (cards@.len() + 1) * CARD) by (nonlinear_arith);
    }
    push_card_images(&mut buf, cards);
    assert(buf@ =~= cards_image(parts_of(cards@)));
    finish_header(&mut buf);
    proof { lemma_block_round((cards_image(parts_of(cards@)) + end_card()).len()); }
    buf
}

/// A primary HDU with no data, carrying `cards`. This is the shape of a
/// `solve-field` `.wcs` file.
pub fn header_only(cards: &[Card]) -> (buf: Vec<u8>)
    requires
        (cards@.len() + 5) * CARD + BLOCK <= usize::MAX,
    ensures
        buf@ == header_image(primary_parts() + parts_of(cards@)),
        buf@.len() % (BLOCK as nat) == 0,
{
    let mut all: Vec<Card> = Vec::new();
    all.push(Card::bool("SIMPLE", true, "conforms to the FITS standard"));
    all.push(Card::integer("BITPIX", 8, "no data, minimum width"));
    all.push(Card::integer("NAXIS", 0, "no data"));
    all.push(Card::bool("EXTEND", true, ""));
    let mut i: usize = 0;
    while i < cards.len()
        invariant
            i <= cards@.len(),
            all@.len() == 4 + i,
            parts_of(all@) == primary_parts() + parts_of(cards@.take(i as int)),
        decreases cards.len() - i,
    {
        let c = cards[i].clone_card();
        let ghost prev = all@;
        all.push(c);
        assert(all@ =~= prev.push(c));
        assert(parts_of(all@) =~= parts_of(prev).push(c.parts()));
        assert(cards@.take(i + 1) =~= cards@.take(i as int).push(cards@[i as int]));
        assert(parts_of(cards@.take(i + 1)) =~= parts_of(cards@.take(i as int)).push(cards@[i as int].parts()));
        i = i + 1;
        assert(parts_of(all@) =~= primary_parts() + parts_of(cards@.take(i as int)));
    }
    assert(cards@.take(cards@.len() as int) =~= cards@);
    header_block(all.as_slice())
}

/// The 80-byte card `j` of a header region.
pub open spec fn chunk(region: Seq<u8>, j: int) -> Seq<u8> {
    region.subrange(j * CARD, j * CARD + CARD)
}

/// The keyword of a raw card: its first eight bytes without trailing
/// spaces, empty when they are not UTF-8.
pub open spec fn chunk_key(card: Seq<u8>) -> Seq<char> {
    let kb = card.take(8);
    if valid_utf8(kb) {
        trim_end(decode_utf8(kb))
    } else {
        seq![]
    }
}

/// The END card: keyword END and nothing else.
pub open spec fn ends_header(card: Seq<u8>) -> bool {
    chunk_key(card) == "END"@ && all_spaces(card.skip(8))
}

/// Whether a new card with a value redefines `key`.
pub open spec fn displaced(cards: Seq<CardParts>, key: Seq<char>) -> bool {
    exists|i: int| 0 <= i < cards.len() && (#[trigger] cards[i]).1 is Some && cards[i].0 == key
}

/// The index of the first END card at or after `j`, or `n`.
pub open spec fn first_end(region: Seq<u8>, n: nat, j: nat) -> nat
    decreases n - j,
{
    if j >= n {
        n
    } else if ends_header(chunk(region, j as int)) {
        j
    } else {
        first_end(region, n, j + 1)
    }
}

/// Whether card `j` is neither padding nor displaced, so that the drop
/// predicate decides whether it stays.
pub open spec fn asked(region: Seq<u8>, cards: Seq<CardParts>, j: int) -> bool {
    !all_spaces(chunk(region, j)) && !displaced(cards, chunk_key(chunk(region, j)))
}

/// The raw cards among the first `j` that stay, given the drop predicate's
/// answers.
pub open spec fn kept_upto(region: Seq<u8>, cards: Seq<CardParts>, drops: Seq<bool>, j: nat) -> Seq<u8>
    decreases j,
{
    if j == 0 {
        seq![]
    } else {
        let c = chunk(region, j - 1);
        let prev = kept_upto(region, cards, drops, (j - 1) as nat);
        if all_spaces(c) || displaced(cards, chunk_key(c)) || drops[j - 1] {
            prev
        } else {
            prev + c
        }
    }
}

/// The HDU whose header `set_cards` rewrites: the first with NAXIS >= 2,
/// else the first.
pub open spec fn first_image(hdus: Seq<HduView>, from: int) -> int
    decreases hdus.len() - from,
{
    if from < 0 || from >= hdus.len() {
        0
    } else if int_card(hdus[from].entries, "NAXIS"@, 0) >= 2 {
        from
    } else {
        first_image(hdus, from + 1)
    }
}

/// `drop` may answer `b` for a keyword spelled `key`.
pub open spec fn answered<F: Fn(&str) -> bool>(drop: F, key: Seq<char>, b: bool) -> bool {
    exists|k: &str| k@ == key && #[trigger] drop.ensures((k,), b)
}

/// `drops` holds an answer of `drop` for every card it is asked about.
pub open spec fn answers_of<F: Fn(&str) -> bool>(drop: F, region: Seq<u8>, cards: Seq<CardParts>, n: nat, drops: Seq<bool>) -> bool {
    forall|j: int| 0 <= j < first_end(region, n, 0) && asked(region, cards, j)
        ==> answered(drop, chunk_key(chunk(region, j)), #[trigger] drops[j])
}

/// The file `set_cards` writes, given the drop predicate's answers: the
/// bytes before the rewritten header, the retained raw cards, the new
/// cards, END and padding, then everything from the data on.
pub open spec fn rewritten(original: Seq<u8>, start: int, data: int, cards: Seq<CardParts>, drops: Seq<bool>) -> Seq<u8> {
    let region = original.subrange(start, data);
    let n = ((data - start) / (CARD as int)) as nat;
    let body = kept_upto(region, cards, drops, first_end(region, n, 0)) + cards_image(cards) + end_card();
    original.take(start) + body + block_padding(body.len()) + original.skip(data)
}

/// What `set_cards` may return for `original`: the rewrite of the chosen
/// HDU's header, for some answers `drop` can give.
pub open spec fn set_cards_output<F: Fn(&str) -> bool>(drop: F, original: Seq<u8>, cards: Seq<CardParts>, out: Seq<u8>) -> bool {
    match fits_spec(original) {
        Ok(hdus) => {
            let h = hdus[first_image(hdus, 0)];
            rewrite_of(drop, original, cards, h.data_offset - h.nblocks * BLOCK, h.data_offset as int, out)
        },
        Err(_) => false,
    }
}

/// `out` is the rewrite of the header at `start..data` for some answers
/// `drop` can give.
pub open spec fn rewrite_of<F: Fn(&str) -> bool>(drop: F, original: Seq<u8>, cards: Seq<CardParts>, start: int, data: int, out: Seq<u8>) -> bool {
    exists|drops: Seq<bool>| {
        &&& #[trigger] answers_of(drop, original.subrange(start, data), cards, ((data - start) / (CARD as int)) as nat, drops)
        &&& out == rewritten(original, start, data, cards, drops)
    }
}

proof fn lemma_first_end(region: Seq<u8>, n: nat, j: nat)
    requires
        j <= n,
        forall|i: int| 0 <= i < j ==> !ends_header(#[trigger] chunk(region, i)),
    ensures
        first_end(region, n, 0) == first_end(region, n, j),
    decreases j,
{
    if j > 0 {
        lemma_first_end(region, n, (j - 1) as nat);
    }
}

proof fn lemma_kept_prefix(region: Seq<u8>, cards: Seq<CardParts>, d1: Seq<bool>, d2: Seq<bool>, j: nat)
    requires
        forall|i: int| 0 <= i < j ==> d1[i] == d2[i],
    ensures
        kept_upto(region, cards, d1, j) == kept_upto(region, cards, d2, j),
    decreases j,
{
    if j > 0 {
        lemma_kept_prefix(region, cards, d1, d2, (j - 1) as nat);
    }
}

/// The 8-byte keyword of a raw card.
fn keyword(card: &[u8]) -> (k: String)
    requires
        card@.len() >= 8,
    ensures
        k@ == chunk_key(card@),
{
    let kb = &card[0..8];
    assert(kb@ =~= card@.take(8));
    match str_from_utf8(kb) {
        Some(s) => {
            let v = chars_of(s);
            let e = trim_end_index(&v, 0, v.len());
            assert(v@.subrange(0, v.len() as int) =~= v@);
            let t = sub_chars(&v, 0, e);
            assert(t@ =~= trim_end(decode_utf8(card@.take(8))));
            string_of(t)
        },
        None => String::new(),
    }
}

/// Whether a valued card among `cards` has keyword `key`.
fn redefines(cards: &[Card], key: &String) -> (r: bool)
    ensures
        r == displaced(parts_of(cards@), key@),
{
    let ghost parts = parts_of(cards@);
    let mut i: usize = 0;
    while i < cards.len()
        invariant
            i <= cards@.len(),
            parts == parts_of(cards@),
            forall|j: int| 0 <= j < i ==> !((#[trigger] parts[j]).1 is Some && parts[j].0 == key@),
        decreases cards.len() - i,
    {
        if cards[i].value.is_some() && cards[i].key == *key {
            assert(parts[i as int].1 is Some && parts[i as int].0 == key@);
            return true;
        }
        i = i + 1;
    }
    false
}

/// Copy `original`, rewriting the header of its first image HDU (the primary
/// HDU if the file has no image) to carry `cards`.
///
/// Existing cards keep their order and content except where `cards`
/// redefines them or `drop` selects them. Dropping matters: a leftover
/// CDELT/CROTA pair or a SIP distortion polynomial would be read alongside
/// the new CD matrix and quietly move the solution.
pub fn set_cards(original: &[u8], cards: &[Card], drop: impl Fn(&str) -> bool) -> (r: Result<Vec<u8>, FitsError>)
    requires
        forall|k: &str| drop.requires((k,)),
        original@.len() + (cards@.len() + 1) * CARD + BLOCK <= usize::MAX,
    ensures
        match r {
            Ok(out) => set_cards_output(drop, original@, parts_of(cards@), out@),
            Err(e) => fits_spec(original@) == Err::<Seq<HduView>, FitsErrorView>(e@),
        },
{
    let fits = match Fits::parse(original) {
        Ok(f) => f,
        Err(e) => return Err(e),
    };
    let ghost hdus = fits.views();
    let mut pick: usize = 0;
    let mut i: usize = 0;
    let mut found = false;
    while i < fits.hdus.len()
        invariant_except_break
            !found,
            pick == 0,
            first_image(hdus, 0) == first_image(hdus, i as int),
        invariant
            i <= fits.hdus@.len(),
            hdus == fits.views(),
            pick < fits.hdus@.len(),
            fits.hdus@.len() > 0,
        ensures
            pick == first_image(hdus, 0),
        decreases fits.hdus.len() - i,
    {
        let naxis = match fits.hdus[i].header.get_i64("NAXIS") {
            Some(v) => v,
            None => 0,
        };
        if naxis >= 2 {
            pick = i;
            found = true;
            break;
        }
        i = i + 1;
    }
    let hdu = &fits.hdus[pick];
    let ghost hv = hdus[pick as int];
    assert(hv == hdu@);
    assert(crate::fits::hdu::placed(hv, original@.len()));
    let start = hdu.header_offset();
    let data = hdu.data_offset;
    let ghost region = original@.subrange(start as int, data as int);
    let n: usize = (data - start) / CARD;
    let ghost parts = parts_of(cards@);
    proof {
        assert(n * CARD == data - start) by (nonlinear_arith)
            requires
                data - start == hdu.header.nblocks * BLOCK,
                n == (data - start) / (CARD as int),
                BLOCK == 2880,
                CARD == 80,
        ;
    }
    let mut header: Vec<u8> = Vec::new();
    let ghost mut drops: Seq<bool> = seq![];
    let mut j: usize = 0;
    assert(header@ =~= kept_upto(region, parts, drops, 0));
    while j < n
        invariant_except_break
            first_end(region, n as nat, 0) == first_end(region, n as nat, j as nat),
        invariant
            j <= n,
            n * CARD == data - start,
            start <= data <= original@.len(),
            region == original@.subrange(start as int, data as int),
            parts == parts_of(cards@),
            forall|k: &str| drop.requires((k,)),
            drops.len() == j,
            forall|i: int| 0 <= i < j ==> !ends_header(#[trigger] chunk(region, i)),
            header@ == kept_upto(region, parts, drops, j as nat),
            header@.len() <= j * CARD,
            forall|i: int| 0 <= i < j && asked(region, parts, i) ==> answered(drop, chunk_key(chunk(region, i)), #[trigger] drops[i]),
        ensures
            j == first_end(region, n as nat, 0),
            drops.len() == j,
            header@ == kept_upto(region, parts, drops, j as nat),
            header@.len() <= n * CARD,
            forall|i: int| 0 <= i < j && asked(region, parts, i) ==> answered(drop, chunk_key(chunk(region, i)), #[trigger] drops[i]),
        decreases n - j,
    {
        proof {
            assert(j * CARD + CARD <= n * CARD) by (nonlinear_arith)
                requires j < n;
        }
        let pos = start + j * CARD;
        let card = &original[pos..pos + CARD];
        assert(card@ =~= chunk(region, j as int));
        let key = keyword(card);
        let end_word = "END".to_owned();
        if key == end_word && spaces_only(card, 8) {
            proof { lemma_first_end(region, n as nat, j as nat); }
            break;
        }
        let blank = spaces_only(card, 0);
        assert(card@.skip(0) =~= card@);
        let ghost before = header@;
        let ghost old_drops = drops;
        let mut keep = false;
        if !blank && !redefines(cards, &key) {
            let ks = key.as_str();
            let d = drop(ks);
            proof {
                assert(drop.ensures((ks,), d));
                assert(answered(drop, key@, d));
            }
            keep = !d;
            proof { drops = drops.push(d); }
        } else {
            proof { drops = drops.push(false); }
        }
        if keep {
            let mut b: usize = 0;
            while b < CARD
                invariant
                    b <= CARD,
                    card@.len() == CARD,
                    header@ == before + card@.take(b as int),
                decreases CARD - b,
            {
                header.push(card[b]);
                b = b + 1;
                assert(header@ =~= before + card@.take(b as int));
            }
            assert(card@.take(CARD as int) =~= card@);
        }
        proof {
            lemma_kept_prefix(region, parts, old_drops, drops, j as nat);
            assert(forall|i: int| 0 <= i < j ==> old_drops[i] == drops[i]);
        }
        j = j + 1;
    }
    proof {
        if j == n {
            lemma_first_end(region, n as nat, n as nat);
        }
    }
    let mut out: Vec<u8> = Vec::new();
    let mut b: usize = 0;
    while b < start
        invariant
            b <= start <= original@.len(),
            out@ == original@.take(b as int),
        decreases start - b,
    {
        out.push(original[b]);
        b = b + 1;
        assert(out@ =~= original@.take(b as int));
    }
    let ghost kept = header@;
    proof {
        assert(n * CARD <= original@.len());
    }
    push_card_images(&mut header, cards);
    finish_header(&mut header);
    let ghost body = kept + cards_image(parts) + end_card();
    assert(header@ =~= body + block_padding(body.len()));
    let mut c: usize = 0;
    let ghost prefix = out@;
    while c < header.len()
        invariant
            c <= header@.len(),
            out@ == prefix + header@.take(c as int),
        decreases header.len() - c,
    {
        out.push(header[c]);
        c = c + 1;
        assert(out@ =~= prefix + header@.take(c as int));
    }
    assert(header@.take(header@.len() as int) =~= header@);
    let ghost mid = out@;
    let mut d = data;
    while d < original.len()
        invariant
            data <= d <= original@.len(),
            out@ == mid + original@.subrange(data as int, d as int),
        decreases original.len() - d,
    {
        out.push(original[d]);
        d = d + 1;
        assert(out@ =~= mid + original@.subrange(data as int, d as int));
    }
    assert(original@.subrange(data as int, original@.len() as int) =~= original@.skip(data as int));
    assert(out@ =~= rewritten(original@, start as int, data as int, parts, drops));
    assert(answers_of(drop, region, parts, n as nat, drops));
    assert(fits_spec(original@) == Ok::<Seq<HduView>, FitsErrorView>(hdus));
    assert(hdus[first_image(hdus, 0)] == hv);
    assert(start == hv.data_offset - hv.nblocks * BLOCK);
    assert(n as int == (hv.data_offset - start) / (CARD as int));
    assert(region == original@.subrange(start as int, hv.data_offset as int));
    proof {
        let h = hdus[first_image(hdus, 0)];
        let st = h.data_offset - h.nblocks * BLOCK;
        let rg = original@.subrange(st, h.data_offset as int);
        let nn = ((h.data_offset - st) / (CARD as int)) as nat;
        assert(nn == n);
        assert(rg == region);
        assert(answers_of(drop, rg, parts_of(cards@), nn, drops));
        assert(out@ == rewritten(original@, st, h.data_offset as int, parts_of(cards@), drops));
        assert(rewrite_of(drop, original@, parts_of(cards@), st, h.data_offset as int, out@));
        assert(set_cards_output(drop, original@, parts_of(cards@), out@));
    }
    Ok(out)
}

/// A header rewrite leaves everything before the header and everything
/// from the data on as it was (the pixels survive), and the new header is
/// a whole number of blocks.
pub proof fn lemma_rewrite_keeps_outside(original: Seq<u8>, start: int, data: int, cards: Seq<CardParts>, drops: Seq<bool>)
    requires
        0 <= start <= data <= original.len(),
    ensures
        ({
            let out = rewritten(original, start, data, cards, drops);
            let tail = original.len() - data;
            &&& out.take(start) == original.take(start)
            &&& out.skip(out.len() - tail) == original.skip(data)
            &&& (out.len() - start - tail) % (BLOCK as int) == 0
        }),
{
    let region = original.subrange(start, data);
    let n = ((data - start) / (CARD as int)) as nat;
    let body = kept_upto(region, cards, drops, first_end(region, n, 0)) + cards_image(cards) + end_card();
    lemma_block_round(body.len());
    let out = rewritten(original, start, data, cards, drops);
    let head = body + block_padding(body.len());
    assert(out =~= original.take(start) + head + original.skip(data));
    assert(out.take(start) =~= original.take(start));
    assert(out.skip(out.len() - (original.len() - data)) =~= original.skip(data));
}

/// Every card image is 80 bytes of printable ASCII.
pub proof fn lemma_card_image_printable(bytes: Seq<u8>)
    ensures
        card_image(bytes).len() == CARD,
        forall|i: int| 0 <= i < CARD ==> 0x20 <= #[trigger] card_image(bytes)[i] < 0x7f,
{
}

} // verus!
