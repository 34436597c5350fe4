//! The writer is the reader's counterpart: a header written from cards is
//! read back card for card.

use vstd::prelude::*;
use vstd::utf8::*;

use crate::fits::hdu::{axes_product, axis_key, data_bytes, element_count, fits_spec, hdu_scan, int_card, simple_magic, HduView};
use crate::fits::header::{exponent_ok, is_float_text, lower, mantissa_ok, number_ok, lookup, parse_value_spec, unquote, ValueView, all_spaces, block_scan, card_at, classify, header_limit, header_scan, CardKind, Entry, ScanStep};
use crate::fits::write::{
    answered, answers_of, asked, chunk, chunk_key, displaced, ends_header, first_end, first_image, kept_upto, rewrite_of, rewritten, set_cards_output, block_padding, block_round, card_bytes, card_image, card_text, cards_image, comment_separator, end_card, header_image,
    bool_field, escape_quotes, int_field, primary_parts, lemma_block_round, lemma_card_image_printable, string_field, value_indicator,
    CardParts,
};
use crate::fits::{BLOCK, CARD, CARDS_PER_BLOCK};
use crate::text::{
    all_digits, digit_char, digits_value, find_first, int_text, is_ascii_digit, is_ws, nat_digits, pad_left, pad_right,
    parse_i64_spec, sign_len, spaces, trim, trim_end, trim_end_len, trim_start, trim_start_len, ascii_lower,
};

verus! {

/// What the reader records of `cards`, in order: the entry each card holds,
/// for the cards that hold one.
pub open spec fn read_entries(cards: Seq<CardParts>) -> Seq<Entry>
    decreases cards.len(),
{
    if cards.len() == 0 {
        seq![]
    } else {
        let rest = read_entries(cards.drop_last());
        match classify(card_bytes(cards.last())) {
            CardKind::Entry(k, v) => rest.push((k, v)),
            _ => rest,
        }
    }
}

/// ASCII bytes are valid UTF-8 and decode one character per byte.
proof fn lemma_ascii_utf8(b: Seq<u8>)
    requires
        forall|i: int| 0 <= i < b.len() ==> #[trigger] b[i] < 0x80,
    ensures
        valid_utf8(b),
        decode_utf8(b) == Seq::new(b.len(), |i: int| b[i] as char),
    decreases b.len(),
{
    if b.len() > 0 {
        let b0 = b[0];
        assert(b0 < 0x80);
        assert((b0 & 0x7F) as u32 == b0 as u32) by (bit_vector)
            requires
                b0 < 0x80,
        ;
        let rest = b.subrange(1, b.len() as int);
        assert forall|i: int| 0 <= i < rest.len() implies #[trigger] rest[i] < 0x80 by {
            assert(rest[i] == b[i + 1]);
        }
        lemma_ascii_utf8(rest);
        assert(pop_first_scalar(b) =~= rest);
        assert(decode_utf8(b) =~= Seq::new(b.len(), |i: int| b[i] as char));
    }
}

/// A card image never stops the reader with an error.
proof fn lemma_card_never_bad(card: Seq<u8>)
    requires
        card.len() == CARD,
        forall|i: int| 0 <= i < CARD ==> 0x20 <= #[trigger] card[i] < 0x7f,
    ensures
        !(classify(card) is Bad),
{
    let kb = card.take(8);
    assert forall|i: int| 0 <= i < kb.len() implies #[trigger] kb[i] < 0x80 by {
        assert(kb[i] == card[i]);
    }
    lemma_ascii_utf8(kb);
    let rb = card.skip(9);
    assert forall|i: int| 0 <= i < rb.len() implies #[trigger] rb[i] < 0x80 by {
        assert(rb[i] == card[i + 9]);
    }
    lemma_ascii_utf8(rb);
}

/// The END card ends the header.
proof fn lemma_end_card_ends()
    ensures
        classify(end_card()) is End,
{
    let card = end_card();
    let kb = card.take(8);
    assert forall|i: int| 0 <= i < kb.len() implies #[trigger] kb[i] < 0x80 by {
        assert(kb[i] == card[i]);
    }
    lemma_ascii_utf8(kb);
    let text = decode_utf8(kb);
    assert(text =~= seq!['E', 'N', 'D', ' ', ' ', ' ', ' ', ' ']);
    assert(trim_end_len(text) == 3) by {
        reveal_with_fuel(trim_end_len, 7);
    }
    assert(trim_end(text) =~= "END"@) by {
        reveal_strlit("END");
    }
    assert(all_spaces(card.skip(8)));
}

/// The images of `cards` are 80 bytes each, card `j` at `80 * j`.
proof fn lemma_cards_image(cards: Seq<CardParts>)
    ensures
        cards_image(cards).len() == cards.len() * CARD,
        forall|j: int| 0 <= j < cards.len() ==> #[trigger] cards_image(cards).subrange(j * CARD, j * CARD + CARD) == card_bytes(cards[j]),
    decreases cards.len(),
{
    if cards.len() > 0 {
        let init = cards.drop_last();
        lemma_cards_image(init);
        let img = cards_image(cards);
        let last = card_bytes(cards.last());
        lemma_card_image_printable(encode_utf8(card_text(cards.last())));
        assert(img == cards_image(init) + last);
        assert(last.len() == CARD);
        assert forall|j: int| 0 <= j < cards.len() implies #[trigger] img.subrange(j * CARD, j * CARD + CARD) == card_bytes(cards[j]) by {
            if j < init.len() {
                assert(img.subrange(j * CARD, j * CARD + CARD) =~= cards_image(init).subrange(j * CARD, j * CARD + CARD));
                assert(init[j] == cards[j]);
            } else {
                assert(img.subrange(j * CARD, j * CARD + CARD) =~= last);
            }
        }
    }
}

/// Entries of the first `j + 1` cards: those of the first `j`, then what
/// card `j` holds.
proof fn lemma_read_entries_step(cards: Seq<CardParts>, j: int)
    requires
        0 <= j < cards.len(),
    ensures
        read_entries(cards.take(j + 1)) == match classify(card_bytes(cards[j])) {
            CardKind::Entry(k, v) => read_entries(cards.take(j)).push((k, v)),
            _ => read_entries(cards.take(j)),
        },
{
    let t = cards.take(j + 1);
    assert(t.drop_last() =~= cards.take(j));
    assert(t.last() == cards[j]);
}

/// Facts about the header written from `cards`: its length, and which
/// 80 bytes lie at card position `j`.
proof fn lemma_header_layout(cards: Seq<CardParts>)
    ensures
        ({
            let h = header_image(cards);
            let n = cards.len();
            &&& h.len() == block_round(((n + 1) * CARD) as nat)
            &&& h.len() >= (n + 1) * CARD
            &&& (h.len() as int) % (BLOCK as int) == 0
            &&& forall|j: int| 0 <= j < n ==> #[trigger] card_at(h, j * CARD) == card_bytes(cards[j])
            &&& card_at(h, n * CARD) == end_card()
        }),
{
    let n = cards.len();
    lemma_cards_image(cards);
    let body = cards_image(cards) + end_card();
    assert(body.len() == (n + 1) * CARD);
    lemma_block_round(body.len());
    let h = header_image(cards);
    assert(h == body + block_padding(body.len()));
    assert forall|j: int| 0 <= j < n implies #[trigger] card_at(h, j * CARD) == card_bytes(cards[j]) by {
        assert(j * CARD + CARD <= n * CARD) by (nonlinear_arith)
            requires
                0 <= j < n,
        ;
        assert(card_at(h, j * CARD) =~= cards_image(cards).subrange(j * CARD, j * CARD + CARD));
    }
    assert(card_at(h, n * CARD) =~= end_card());
}

/// What the reader records of raw 80-byte cards, in order.
pub open spec fn read_images(imgs: Seq<Seq<u8>>) -> Seq<Entry>
    decreases imgs.len(),
{
    if imgs.len() == 0 {
        seq![]
    } else {
        let rest = read_images(imgs.drop_last());
        match classify(imgs.last()) {
            CardKind::Entry(k, v) => rest.push((k, v)),
            _ => rest,
        }
    }
}

/// Cards laid end to end.
pub open spec fn joined_images(imgs: Seq<Seq<u8>>) -> Seq<u8>
    decreases imgs.len(),
{
    if imgs.len() == 0 {
        seq![]
    } else {
        joined_images(imgs.drop_last()) + imgs.last()
    }
}

/// The images `cards` write.
pub open spec fn images_of(cards: Seq<CardParts>) -> Seq<Seq<u8>> {
    cards.map_values(|p: CardParts| card_bytes(p))
}

/// Cards the reader reads on from: 80 bytes, neither END nor an error.
pub open spec fn plain_images(imgs: Seq<Seq<u8>>) -> bool {
    forall|j: int| 0 <= j < imgs.len() ==> {
        &&& (#[trigger] imgs[j]).len() == CARD
        &&& !(classify(imgs[j]) is End)
        &&& !(classify(imgs[j]) is Bad)
    }
}

/// `buf` holds at `s` a header made of `imgs`: the cards, then END, within
/// a whole number of blocks of the buffer.
pub open spec fn holds_header(buf: Seq<u8>, s: int, imgs: Seq<Seq<u8>>) -> bool {
    let body = joined_images(imgs) + end_card();
    &&& 0 <= s
    &&& s + block_round(body.len()) <= buf.len()
    &&& buf.subrange(s, s + body.len()) == body
}

proof fn lemma_joined_images(imgs: Seq<Seq<u8>>)
    requires
        forall|j: int| 0 <= j < imgs.len() ==> (#[trigger] imgs[j]).len() == CARD,
    ensures
        joined_images(imgs).len() == imgs.len() * CARD,
        forall|j: int| 0 <= j < imgs.len() ==> #[trigger] joined_images(imgs).subrange(j * CARD, j * CARD + CARD) == imgs[j],
    decreases imgs.len(),
{
    if imgs.len() > 0 {
        let init = imgs.drop_last();
        assert forall|j: int| 0 <= j < init.len() implies (#[trigger] init[j]).len() == CARD by {
            assert(init[j] == imgs[j]);
        }
        lemma_joined_images(init);
        let all = joined_images(imgs);
        assert(all == joined_images(init) + imgs.last());
        assert forall|j: int| 0 <= j < imgs.len() implies #[trigger] all.subrange(j * CARD, j * CARD + CARD) == imgs[j] by {
            if j < init.len() {
                assert(j * CARD + CARD <= init.len() * CARD) by (nonlinear_arith)
                    requires
                        0 <= j < init.len(),
                ;
                assert(all.subrange(j * CARD, j * CARD + CARD) =~= joined_images(init).subrange(j * CARD, j * CARD + CARD));
                assert(init[j] == imgs[j]);
            } else {
                assert(all.subrange(j * CARD, j * CARD + CARD) =~= imgs.last());
            }
        }
    }
}

proof fn lemma_read_images_step(imgs: Seq<Seq<u8>>, j: int)
    requires
        0 <= j < imgs.len(),
    ensures
        read_images(imgs.take(j + 1)) == match classify(imgs[j]) {
            CardKind::Entry(k, v) => read_images(imgs.take(j)).push((k, v)),
            _ => read_images(imgs.take(j)),
        },
{
    let t = imgs.take(j + 1);
    assert(t.drop_last() =~= imgs.take(j));
    assert(t.last() == imgs[j]);
}

/// Where card `j` of a held header lies.
proof fn lemma_held_card(buf: Seq<u8>, s: int, imgs: Seq<Seq<u8>>, j: int)
    requires
        plain_images(imgs),
        holds_header(buf, s, imgs),
        0 <= j <= imgs.len(),
    ensures
        card_at(buf, s + j * CARD) == (if j < imgs.len() { imgs[j] } else { end_card() }),
{
    let n = imgs.len() as int;
    assert forall|i: int| 0 <= i < n implies (#[trigger] imgs[i]).len() == CARD by {}
    lemma_joined_images(imgs);
    let body = joined_images(imgs) + end_card();
    assert(body.len() == (n + 1) * CARD);
    assert(j * CARD + CARD <= (n + 1) * CARD) by (nonlinear_arith)
        requires
            0 <= j <= n,
    ;
    assert(card_at(buf, s + j * CARD) =~= body.subrange(j * CARD, j * CARD + CARD));
    if j < n {
        assert(body.subrange(j * CARD, j * CARD + CARD) =~= joined_images(imgs).subrange(j * CARD, j * CARD + CARD));
    } else {
        assert(body.subrange(j * CARD, j * CARD + CARD) =~= end_card());
    }
}

/// Scanning block `b` of a held header from card `i` on: it ends at the
/// END card when that lies in the block, and otherwise passes on the
/// entries of every card up to the block's end.
proof fn lemma_block_images(buf: Seq<u8>, s: int, imgs: Seq<Seq<u8>>, b: int, i: int)
    requires
        plain_images(imgs),
        holds_header(buf, s, imgs),
        0 <= b,
        0 <= i <= CARDS_PER_BLOCK,
        b * (CARDS_PER_BLOCK as int) + i <= imgs.len(),
    ensures
        block_scan(buf, s + b * (BLOCK as int), i, read_images(imgs.take(b * (CARDS_PER_BLOCK as int) + i))) == (
        if imgs.len() < (b + 1) * (CARDS_PER_BLOCK as int) {
            ScanStep::Ended(read_images(imgs))
        } else {
            ScanStep::Continue(read_images(imgs.take((b + 1) * (CARDS_PER_BLOCK as int))))
        }),
    decreases CARDS_PER_BLOCK - i,
{
    let n = imgs.len() as int;
    let j = b * (CARDS_PER_BLOCK as int) + i;
    let off = s + b * (BLOCK as int);
    if i < CARDS_PER_BLOCK {
        assert(off + i * CARD == s + j * CARD) by (nonlinear_arith)
            requires
                off == s + b * (BLOCK as int),
                j == b * (CARDS_PER_BLOCK as int) + i,
                BLOCK == 2880,
                CARD == 80,
                CARDS_PER_BLOCK == 36,
        ;
        lemma_held_card(buf, s, imgs, j);
        if j == n {
            lemma_end_card_ends();
            assert(imgs.take(j) =~= imgs);
        } else {
            lemma_read_images_step(imgs, j);
            lemma_block_images(buf, s, imgs, b, i + 1);
        }
    } else {
        assert(n >= (b + 1) * (CARDS_PER_BLOCK as int));
    }
}

/// Scanning a held header from block `b` on reads the entries of every
/// card and finds the data at the end of the padded header.
proof fn lemma_blocks_images(buf: Seq<u8>, s: int, imgs: Seq<Seq<u8>>, b: int)
    requires
        plain_images(imgs),
        holds_header(buf, s, imgs),
        (imgs.len() + 1) * CARD <= header_limit(),
        0 <= b,
        b * (CARDS_PER_BLOCK as int) <= imgs.len(),
    ensures
        header_scan(buf, s, s + b * (BLOCK as int), read_images(imgs.take(b * (CARDS_PER_BLOCK as int)))) == Ok::<(Seq<Entry>, int), crate::fits::FitsErrorView>((read_images(imgs), s + block_round(((imgs.len() + 1) * CARD) as nat))),
    decreases imgs.len() - b * (CARDS_PER_BLOCK as int),
{
    let n = imgs.len() as int;
    let off = s + b * (BLOCK as int);
    let total = (n + 1) * CARD;
    assert forall|i: int| 0 <= i < n implies (#[trigger] imgs[i]).len() == CARD by {}
    lemma_joined_images(imgs);
    lemma_block_round(total as nat);
    let hl = block_round(total as nat) as int;
    let k = hl / (BLOCK as int);
    assert(hl == k * (BLOCK as int)) by (nonlinear_arith)
        requires
            hl % (BLOCK as int) == 0,
            k == hl / (BLOCK as int),
    ;
    assert(b * (BLOCK as int) < total) by (nonlinear_arith)
        requires
            b * (CARDS_PER_BLOCK as int) <= n,
            total == (n + 1) * CARD,
            BLOCK == 2880,
            CARD == 80,
            CARDS_PER_BLOCK == 36,
    ;
    assert(b * (BLOCK as int) + BLOCK <= hl) by (nonlinear_arith)
        requires
            hl == k * (BLOCK as int),
            hl >= total,
            b * (BLOCK as int) < total,
            BLOCK == 2880,
    ;
    lemma_block_images(buf, s, imgs, b, 0);
    assert(b * (CARDS_PER_BLOCK as int) + 0 == b * (CARDS_PER_BLOCK as int));
    if n < (b + 1) * (CARDS_PER_BLOCK as int) {
        assert(total <= b * (BLOCK as int) + BLOCK) by (nonlinear_arith)
            requires
                n < (b + 1) * (CARDS_PER_BLOCK as int),
                total == (n + 1) * CARD,
                BLOCK == 2880,
                CARD == 80,
                CARDS_PER_BLOCK == 36,
        ;
        assert(hl == b * (BLOCK as int) + BLOCK) by (nonlinear_arith)
            requires
                hl == k * (BLOCK as int),
                hl >= total,
                hl - total < BLOCK,
                b * (BLOCK as int) < total,
                total <= b * (BLOCK as int) + BLOCK,
                BLOCK == 2880,
        ;
    } else {
        assert(b * (BLOCK as int) + BLOCK <= n * CARD) by (nonlinear_arith)
            requires
                n >= (b + 1) * (CARDS_PER_BLOCK as int),
                BLOCK == 2880,
                CARD == 80,
                CARDS_PER_BLOCK == 36,
        ;
        assert(s + (b + 1) * (BLOCK as int) == off + BLOCK);
        lemma_blocks_images(buf, s, imgs, b + 1);
    }
}

/// A header held at `s`, made of cards the reader reads on from, reads as
/// the entries of its cards, with the data right after its padding.
proof fn lemma_held_header_reads(buf: Seq<u8>, s: int, imgs: Seq<Seq<u8>>)
    requires
        plain_images(imgs),
        holds_header(buf, s, imgs),
        (imgs.len() + 1) * CARD <= header_limit(),
    ensures
        header_scan(buf, s, s, seq![]) == Ok::<(Seq<Entry>, int), crate::fits::FitsErrorView>((read_images(imgs), s + block_round(((imgs.len() + 1) * CARD) as nat))),
{
    lemma_blocks_images(buf, s, imgs, 0);
    assert(imgs.take(0) =~= Seq::<Seq<u8>>::empty());
    assert(s + 0 * (BLOCK as int) == s);
}

/// The images of `cards` are what they write, laid end to end, and read as
/// the cards' entries.
proof fn lemma_images_of(cards: Seq<CardParts>)
    ensures
        joined_images(images_of(cards)) == cards_image(cards),
        read_images(images_of(cards)) == read_entries(cards),
        images_of(cards).len() == cards.len(),
    decreases cards.len(),
{
    if cards.len() > 0 {
        let init = cards.drop_last();
        lemma_images_of(init);
        assert(images_of(cards).drop_last() =~= images_of(init));
        assert(images_of(cards).last() == card_bytes(cards.last()));
    } else {
        assert(images_of(cards) =~= Seq::<Seq<u8>>::empty());
    }
}

/// The cards written from `cards` are ones the reader reads on from,
/// unless one of them reads as END.
proof fn lemma_written_plain(cards: Seq<CardParts>)
    requires
        forall|j: int| 0 <= j < cards.len() ==> !(#[trigger] classify(card_bytes(cards[j])) is End),
    ensures
        plain_images(images_of(cards)),
{
    assert forall|j: int| 0 <= j < images_of(cards).len() implies {
        &&& (#[trigger] images_of(cards)[j]).len() == CARD
        &&& !(classify(images_of(cards)[j]) is End)
        &&& !(classify(images_of(cards)[j]) is Bad)
    } by {
        let card = card_bytes(cards[j]);
        assert(images_of(cards)[j] == card);
        lemma_card_image_printable(encode_utf8(card_text(cards[j])));
        lemma_card_never_bad(card);
    }
}

/// A header written from `cards` reads back card for card: the reader
/// records, in order, exactly the entry each written card holds, stops at
/// the END card the writer appends, and finds the data right after the
/// padded header. This holds for every list of cards but those with a
/// commentary card keyed `END` and left blank (which reads as the end of
/// the header), and up to the longest header the reader accepts.
pub proof fn lemma_header_reads_back(cards: Seq<CardParts>)
    requires
        forall|j: int| 0 <= j < cards.len() ==> !(#[trigger] classify(card_bytes(cards[j])) is End),
        (cards.len() + 1) * CARD <= header_limit(),
    ensures
        header_scan(header_image(cards), 0, 0, seq![]) == Ok::<(Seq<Entry>, int), crate::fits::FitsErrorView>((read_entries(cards), header_image(cards).len() as int)),
{
    let imgs = images_of(cards);
    let h = header_image(cards);
    lemma_images_of(cards);
    lemma_written_plain(cards);
    lemma_header_layout(cards);
    lemma_cards_image(cards);
    let body = cards_image(cards) + end_card();
    assert(h == body + block_padding(body.len()));
    assert(h.subrange(0, body.len() as int) =~= body);
    assert(holds_header(h, 0, imgs));
    lemma_held_header_reads(h, 0, imgs);
}

/// A printable ASCII character: what a card holds as written.
pub open spec fn printable(c: char) -> bool {
    ' ' <= c <= '~'
}

proof fn lemma_encode_concat(a: Seq<char>, b: Seq<char>)
    ensures
        encode_utf8(a + b) == encode_utf8(a) + encode_utf8(b),
    decreases a.len(),
{
    if a.len() == 0 {
        assert(a + b =~= b);
        assert(encode_utf8(a) + encode_utf8(b) =~= encode_utf8(b));
    } else {
        assert((a + b).drop_first() =~= a.drop_first() + b);
        assert((a + b)[0] == a[0]);
        lemma_encode_concat(a.drop_first(), b);
        assert(encode_utf8(a + b) =~= encode_utf8(a) + encode_utf8(b));
    }
}

/// The card image of a text whose first `l` characters are printable ASCII
/// holds those characters as written; when that is the whole text, the rest
/// of the card is spaces.
proof fn lemma_printable_prefix(text: Seq<char>, l: int)
    requires
        0 <= l <= text.len(),
        l <= CARD,
        forall|i: int| 0 <= i < l ==> printable(#[trigger] text[i]),
    ensures
        forall|i: int| 0 <= i < l ==> #[trigger] card_image(encode_utf8(text))[i] == text[i] as u8,
        forall|i: int| 0 <= i < l ==> (#[trigger] card_image(encode_utf8(text))[i]) as char == text[i],
        text.len() == l ==> forall|i: int| l <= i < CARD ==> #[trigger] card_image(encode_utf8(text))[i] == 0x20u8,
{
    let pre = text.take(l);
    let rest = text.skip(l);
    assert(text =~= pre + rest);
    lemma_encode_concat(pre, rest);
    assert(is_ascii_chars(pre));
    is_ascii_chars_encode_utf8(pre);
    let bytes = encode_utf8(text);
    assert(bytes == encode_utf8(pre) + encode_utf8(rest));
    assert forall|i: int| 0 <= i < l implies #[trigger] card_image(bytes)[i] == text[i] as u8 by {
        assert(bytes[i] == encode_utf8(pre)[i]);
        assert(pre[i] == text[i]);
        assert(encode_utf8(pre)[i] == pre[i] as u8);
    }
    assert forall|i: int| 0 <= i < l implies (#[trigger] card_image(bytes)[i]) as char == text[i] by {
        assert(bytes[i] == encode_utf8(pre)[i]);
        assert(pre[i] == text[i]);
    }
    if text.len() == l {
        assert(rest.len() == 0);
        assert(encode_utf8(rest) =~= Seq::<u8>::empty());
        assert(bytes.len() == l);
    }
}

/// The first `c` is at `k` when `s[k] == c` and no earlier character is `c`
/// (or at the end when there is none).
proof fn lemma_find_at(s: Seq<char>, c: char, k: int)
    requires
        0 <= k <= s.len(),
        k < s.len() ==> s[k] == c,
        forall|i: int| 0 <= i < k ==> #[trigger] s[i] != c,
    ensures
        find_first(s, c) == k,
    decreases s.len(),
{
    if s.len() > 0 && k > 0 {
        assert(s[0] != c);
        assert forall|i: int| 0 <= i < k - 1 implies #[trigger] s.drop_first()[i] != c by {
            assert(s.drop_first()[i] == s[i + 1]);
        }
        lemma_find_at(s.drop_first(), c, k - 1);
    }
}

/// Trimming the end keeps `k` characters when the rest is whitespace and
/// the `k`-th is not.
proof fn lemma_trim_end_at(s: Seq<char>, k: int)
    requires
        0 <= k <= s.len(),
        k > 0 ==> !is_ws(s[k - 1]),
        forall|i: int| k <= i < s.len() ==> is_ws(#[trigger] s[i]),
    ensures
        trim_end_len(s) == k,
    decreases s.len(),
{
    if s.len() > k {
        assert(is_ws(s.last()));
        assert forall|i: int| k <= i < s.drop_last().len() implies is_ws(#[trigger] s.drop_last()[i]) by {
            assert(s.drop_last()[i] == s[i]);
        }
        lemma_trim_end_at(s.drop_last(), k);
    }
}

/// Trimming the start drops `k` characters when they are whitespace and
/// the next is not.
proof fn lemma_trim_start_at(s: Seq<char>, k: int)
    requires
        0 <= k <= s.len(),
        k < s.len() ==> !is_ws(s[k]),
        forall|i: int| 0 <= i < k ==> is_ws(#[trigger] s[i]),
    ensures
        trim_start_len(s) == k,
    decreases s.len(),
{
    if k > 0 {
        assert(is_ws(s[0]));
        assert forall|i: int| 0 <= i < k - 1 implies is_ws(#[trigger] s.drop_first()[i]) by {
            assert(s.drop_first()[i] == s[i + 1]);
        }
        if k - 1 < s.drop_first().len() {
            assert(s.drop_first()[k - 1] == s[k]);
        }
        lemma_trim_start_at(s.drop_first(), k - 1);
    } else if s.len() > 0 {
        assert(!is_ws(s[0]));
    }
}

/// A keyword the reader gives back as written: one to eight printable ASCII
/// characters without a space, other than the commentary keywords.
pub open spec fn plain_keyword(k: Seq<char>) -> bool {
    &&& 0 < k.len() <= 8
    &&& forall|i: int| 0 <= i < k.len() ==> '!' <= #[trigger] k[i] <= '~'
    &&& k != "COMMENT"@
    &&& k != "HISTORY"@
}

/// What the reader makes of a valued card with a plain keyword and a value
/// field of printable ASCII: an entry under the keyword, whose value is read
/// from the 71 characters after `=`: a space, the field, then either spaces
/// (no comment) or ` /` and the comment.
proof fn lemma_valued_card(key: Seq<char>, field: Seq<char>, comment: Seq<char>)
    requires
        plain_keyword(key),
        field.len() <= 68,
        forall|i: int| 0 <= i < field.len() ==> printable(#[trigger] field[i]),
    ensures
        ({
            let card = card_bytes((key, Some(field), comment));
            let raw = decode_utf8(card.skip(9));
            &&& classify(card) == CardKind::Entry(key, parse_value_spec(raw))
            &&& raw.len() == 71
            &&& raw.take(field.len() + 1int) == seq![' '] + field
            &&& comment.len() == 0 ==> forall|i: int| field.len() + 1 <= i < 71 ==> #[trigger] raw[i] == ' '
            &&& comment.len() > 0 ==> raw[field.len() + 1int] == ' ' && raw[field.len() + 2int] == '/'
        }),
{
    let p = (key, Some(field), comment);
    let text = card_text(p);
    let padded = pad_right(key, 8);
    let f = field.len() as int;
    assert(padded =~= key + spaces((8 - key.len()) as nat));
    let head = padded + value_indicator() + field;
    assert(head.len() == 10 + f);
    let l = if comment.len() == 0 { 10 + f } else { 12 + f };
    if comment.len() == 0 {
        assert(text == head);
    } else {
        assert(text == head + comment_separator() + comment);
        assert(text[10 + f] == ' ');
        assert(text[11 + f] == '/');
    }
    assert forall|i: int| 0 <= i < l implies printable(#[trigger] text[i]) by {
        if i < key.len() {
            assert(text[i] == key[i]);
        } else if i < 8 {
            assert(text[i] == ' ');
        } else if i < 10 {
        } else if i < 10 + f {
            assert(text[i] == field[i - 10]);
        }
    }
    lemma_printable_prefix(text, l);
    let card = card_bytes(p);
    assert(card == card_image(encode_utf8(text)));
    lemma_card_image_printable(encode_utf8(text));
    lemma_card_never_bad(card);
    // The keyword.
    let kb = card.take(8);
    assert forall|i: int| 0 <= i < kb.len() implies #[trigger] kb[i] < 0x80 by {
        assert(kb[i] == card[i]);
    }
    lemma_ascii_utf8(kb);
    assert(decode_utf8(kb) =~= padded) by {
        assert forall|i: int| 0 <= i < 8 implies #[trigger] decode_utf8(kb)[i] == padded[i] by {
            assert(kb[i] == card[i]);
            assert(text[i] == padded[i]);
        }
    }
    assert forall|i: int| key.len() <= i < padded.len() implies is_ws(#[trigger] padded[i]) by {
        assert(padded[i] == ' ');
    }
    lemma_trim_end_at(padded, key.len() as int);
    assert(trim_end(padded) =~= key);
    assert(card[8] == 0x3Du8);
    assert(card.skip(8)[0] == card[8]);
    // The value section.
    let rb = card.skip(9);
    assert forall|i: int| 0 <= i < rb.len() implies #[trigger] rb[i] < 0x80 by {
        assert(rb[i] == card[i + 9]);
    }
    lemma_ascii_utf8(rb);
    let raw = decode_utf8(rb);
    assert forall|i: int| 0 <= i < 71 && 9 + i < l implies #[trigger] raw[i] == text[9 + i] by {
        assert(rb[i] == card[9 + i]);
    }
    assert(raw.take(f + 1) =~= seq![' '] + field) by {
        assert forall|i: int| 0 <= i < f + 1 implies #[trigger] raw.take(f + 1)[i] == (seq![' '] + field)[i] by {
            assert(raw[i] == text[9 + i]);
            if i > 0 {
                assert(text[9 + i] == field[i - 1]);
            }
        }
    }
    if comment.len() == 0 {
        assert forall|i: int| f + 1 <= i < 71 implies #[trigger] raw[i] == ' ' by {
            assert(rb[i] == card[9 + i]);
            assert(card[9 + i] == 0x20u8);
        }
    } else {
        assert(raw[f + 1] == text[10 + f]);
        assert(raw[f + 2] == text[11 + f]);
    }
}

/// What the reader makes of a valued card whose value field is `t`
/// right-justified in 20 columns, for a `t` that is not a quoted string:
/// the value of `t` itself, whatever the comment.
proof fn lemma_right_justified(key: Seq<char>, t: Seq<char>, comment: Seq<char>)
    requires
        plain_keyword(key),
        0 < t.len() <= 20,
        forall|i: int| 0 <= i < t.len() ==> printable(#[trigger] t[i]),
        forall|i: int| 0 <= i < t.len() ==> #[trigger] t[i] != '/',
        !is_ws(t[0]),
        !is_ws(t.last()),
        t[0] != '\'',
    ensures
        classify(card_bytes((key, Some(pad_left(t, 20)), comment))) == CardKind::Entry(key, parse_value_spec(t)),
        trim_start(t) == t,
        trim(t.take(find_first(t, '/') as int)) == t,
{
    let n = t.len() as int;
    let field = pad_left(t, 20);
    assert(field =~= spaces((20 - n) as nat) + t);
    assert forall|i: int| 0 <= i < field.len() implies printable(#[trigger] field[i]) by {
        if i >= 20 - n {
            assert(field[i] == t[i - (20 - n)]);
        }
    }
    lemma_valued_card(key, field, comment);
    let card = card_bytes((key, Some(field), comment));
    let raw = decode_utf8(card.skip(9));
    let pre = raw.take(21);
    assert(pre == seq![' '] + field);
    // Leading spaces, then `t`.
    let k = 21 - n;
    assert forall|i: int| 0 <= i < k implies is_ws(#[trigger] raw[i]) by {
        assert(raw[i] == pre[i]);
    }
    assert(raw[k] == pre[k]);
    assert(raw[k] == t[0]);
    lemma_trim_start_at(raw, k);
    let r = raw.skip(k);
    assert(trim_start(raw) == r);
    assert forall|i: int| 0 <= i < n implies #[trigger] r[i] == t[i] by {
        assert(r[i] == raw[k + i]);
        assert(raw[k + i] == pre[k + i]);
    }
    // The first `/` (if any) follows `t` and a space.
    let m: int = if comment.len() > 0 { n + 1 } else { r.len() as int };
    assert forall|i: int| n <= i < r.len() && (comment.len() == 0 || i == n) implies #[trigger] r[i] == ' ' by {
        assert(r[i] == raw[k + i]);
    }
    if comment.len() > 0 {
        assert(r[n + 1] == raw[22]);
    }
    assert forall|i: int| 0 <= i < m implies #[trigger] r[i] != '/' by {
        if i < n {
            assert(r[i] == t[i]);
        } else {
            assert(r[i] == ' ');
        }
    }
    lemma_find_at(r, '/', m);
    let u = r.take(m);
    assert(u[0] == t[0]);
    lemma_trim_start_at(u, 0);
    assert(trim_start(u) =~= u);
    assert forall|i: int| n <= i < u.len() implies is_ws(#[trigger] u[i]) by {
        assert(u[i] == r[i]);
        assert(r[i] == ' ');
    }
    assert(u[n - 1] == t[n - 1]);
    lemma_trim_end_at(u, n);
    assert(trim(u) =~= t);
    // `t` alone reads the same.
    lemma_trim_start_at(t, 0);
    assert(trim_start(t) =~= t);
    assert forall|i: int| 0 <= i < n implies #[trigger] t[i] != '/' by {}
    lemma_find_at(t, '/', n);
    assert(t.take(n) =~= t);
    lemma_trim_end_at(t, n);
    assert(trim(t) =~= t);
}

/// `10^k`.
pub open spec fn pow10(k: nat) -> nat
    decreases k,
{
    if k == 0 {
        1
    } else {
        10 * pow10((k - 1) as nat)
    }
}

proof fn lemma_digit_char(d: nat)
    requires
        d < 10,
    ensures
        digit_char(d) as nat == d + 48,
        is_ascii_digit(digit_char(d)),
{
    let b = (d + 48) as u8;
    assert(b as nat == d + 48);
    assert(digit_char(d) == b as char);
}

/// The decimal digits of `n` are digits, and spell `n`.
proof fn lemma_nat_digits(n: nat, k: nat)
    requires
        n < pow10(k),
        k >= 1,
    ensures
        all_digits(nat_digits(n)),
        digits_value(nat_digits(n)) == n,
        1 <= nat_digits(n).len() <= k,
    decreases n,
{
    let s = nat_digits(n);
    if n < 10 {
        lemma_digit_char(n);
        assert(s[0] == digit_char(n));
        assert(s.drop_last() =~= Seq::<char>::empty());
        assert(digits_value(s.drop_last()) == 0);
        assert(s.last() as nat == n + 48);
        assert(digits_value(s) == digits_value(s.drop_last()) * 10 + ((s.last() as nat) - 48) as nat);
    } else {
        assert(n / 10 < pow10((k - 1) as nat)) by (nonlinear_arith)
            requires
                n < pow10(k),
                pow10(k) == 10 * pow10((k - 1) as nat),
                n >= 10,
        ;
        assert(k >= 2) by {
            if k == 1 {
                assert(pow10(0) == 1);
            }
        }
        lemma_nat_digits(n / 10, (k - 1) as nat);
        lemma_digit_char(n % 10);
        let d = nat_digits(n / 10);
        assert(s == d.push(digit_char(n % 10)));
        assert(s.drop_last() =~= d);
        assert forall|i: int| 0 <= i < s.len() implies is_ascii_digit(#[trigger] s[i]) by {
            if i < d.len() {
                assert(s[i] == d[i]);
            }
        }
        assert(n == (n / 10) * 10 + n % 10);
        assert(s.last() as nat == n % 10 + 48);
        assert(digits_value(s) == digits_value(d) * 10 + ((s.last() as nat) - 48) as nat);
    }
}

/// `i64` text reads back as the `i64`.
proof fn lemma_int_text(v: i64)
    ensures
        ({
            let t = int_text(v as int);
            &&& 0 < t.len() <= 20
            &&& forall|i: int| 0 <= i < t.len() ==> #[trigger] t[i] == '-' || is_ascii_digit(t[i])
            &&& is_ascii_digit(t.last())
            &&& parse_i64_spec(t) == Some(v)
        }),
{
    assert(pow10(19) == 10000000000000000000) by {
        reveal_with_fuel(pow10, 20);
    }
    let t = int_text(v as int);
    if v < 0 {
        let d = nat_digits((-v) as nat);
        lemma_nat_digits((-v) as nat, 19);
        assert(t == seq!['-'] + d);
        assert(t.skip(1) =~= d);
        assert(t.last() == d.last());
        assert forall|i: int| 0 <= i < t.len() implies #[trigger] t[i] == '-' || is_ascii_digit(t[i]) by {
            if i > 0 {
                assert(t[i] == d[i - 1]);
            }
        }
    } else {
        lemma_nat_digits(v as nat, 19);
        assert(t.skip(0) =~= t);
    }
}

/// An integer card reads back as its integer: whatever its comment, the
/// reader records the card's keyword with the value `v`, for every keyword
/// it gives back as written.
pub proof fn lemma_integer_card_reads_back(key: Seq<char>, v: i64, comment: Seq<char>)
    requires
        plain_keyword(key),
    ensures
        classify(card_bytes((key, Some(int_field(v as int)), comment))) == CardKind::Entry(key, ValueView::Int(v)),
{
    lemma_int_text(v);
    let t = int_text(v as int);
    assert forall|i: int| 0 <= i < t.len() implies printable(#[trigger] t[i]) && t[i] != '/' by {
        assert(t[i] == '-' || is_ascii_digit(t[i]));
    }
    assert(t[0] == '-' || is_ascii_digit(t[0]));
    lemma_right_justified(key, t, comment);
    assert(t != seq!['T']) by {
        if t == seq!['T'] {
            assert(t[0] == 'T');
        }
    }
    assert(t != seq!['F']) by {
        if t == seq!['F'] {
            assert(t[0] == 'F');
        }
    }
}

/// A logical card reads back as its truth value, whatever its comment, for
/// every keyword the reader gives back as written.
pub proof fn lemma_logical_card_reads_back(key: Seq<char>, b: bool, comment: Seq<char>)
    requires
        plain_keyword(key),
    ensures
        classify(card_bytes((key, Some(bool_field(b)), comment))) == CardKind::Entry(key, ValueView::Bool(b)),
{
    let t = if b { seq!['T'] } else { seq!['F'] };
    assert(t.last() == t[0]);
    lemma_right_justified(key, t, comment);
    assert(t.take(1) =~= t);
}

/// Unquoting an escaped text gives the text back, then reads on.
proof fn lemma_unquote_escaped(s: Seq<char>, y: Seq<char>)
    ensures
        unquote(escape_quotes(s) + y) == s + unquote(y),
    decreases s.len(),
{
    if s.len() == 0 {
        assert(escape_quotes(s) + y =~= y);
        assert(s + unquote(y) =~= unquote(y));
    } else {
        let rest = s.drop_first();
        lemma_unquote_escaped(rest, y);
        let e = escape_quotes(s) + y;
        if s[0] == '\'' {
            assert(e =~= seq!['\'', '\''] + (escape_quotes(rest) + y));
            assert(e.skip(2) =~= escape_quotes(rest) + y);
            assert(s =~= seq!['\''] + rest);
        } else {
            assert(e =~= seq![s[0]] + (escape_quotes(rest) + y));
            assert(e.drop_first() =~= escape_quotes(rest) + y);
            assert(s =~= seq![s[0]] + rest);
        }
        assert(unquote(e) =~= s + unquote(y));
    }
}

/// Unquoting reads through spaces.
proof fn lemma_unquote_spaces(n: nat, y: Seq<char>)
    ensures
        unquote(spaces(n) + y) == spaces(n) + unquote(y),
    decreases n,
{
    if n == 0 {
        assert(spaces(0) + y =~= y);
        assert(spaces(0) + unquote(y) =~= unquote(y));
    } else {
        let e = spaces(n) + y;
        assert(e.drop_first() =~= spaces((n - 1) as nat) + y);
        lemma_unquote_spaces((n - 1) as nat, y);
        assert(unquote(e) =~= spaces(n) + unquote(y));
    }
}

/// Trailing spaces do not survive `trim_end`.
proof fn lemma_trim_end_spaces(s: Seq<char>, n: nat)
    ensures
        trim_end(s + spaces(n)) == trim_end(s),
{
    let k = trim_end_len(s) as int;
    crate::text::lemma_trim_end_len(s);
    let u = s + spaces(n);
    assert forall|i: int| k <= i < u.len() implies is_ws(#[trigger] u[i]) by {
        if i < s.len() {
            assert(u[i] == s[i]);
        }
    }
    if k > 0 {
        assert(u[k - 1] == s[k - 1]);
    }
    lemma_trim_end_at(u, k);
    assert(trim_end(u) =~= trim_end(s));
}

/// A string card reads back as its text without trailing spaces (which
/// FITS does not count), whatever its comment, for every keyword the reader
/// gives back as written, when the text is printable ASCII and its quoted
/// form ends inside the card.
pub proof fn lemma_string_card_reads_back(key: Seq<char>, s: Seq<char>, comment: Seq<char>)
    requires
        plain_keyword(key),
        forall|i: int| 0 <= i < s.len() ==> printable(#[trigger] s[i]),
        escape_quotes(s).len() <= 66,
    ensures
        classify(card_bytes((key, Some(string_field(s)), comment))) == CardKind::Entry(key, ValueView::Str(trim_end(s))),
{
    let e = escape_quotes(s);
    lemma_escape_printable(s);
    let inner = pad_right(e, 8);
    let q = seq!['\''] + inner + seq!['\''];
    let field = string_field(s);
    assert(field == pad_right(q, 20));
    let pad = if q.len() < 20 { (20 - q.len()) as nat } else { 0 };
    assert(field =~= q + spaces(pad));
    let gap = if e.len() < 8 { (8 - e.len()) as nat } else { 0 };
    assert(inner =~= e + spaces(gap));
    let f = field.len() as int;
    assert forall|i: int| 0 <= i < f implies printable(#[trigger] field[i]) by {
        if 1 <= i < 1 + e.len() {
            assert(field[i] == e[i - 1]);
        }
    }
    lemma_valued_card(key, field, comment);
    let card = card_bytes((key, Some(field), comment));
    let raw = decode_utf8(card.skip(9));
    let pre = raw.take(f + 1);
    assert(pre == seq![' '] + field);
    assert(raw.len() == 71);
    assert(pre[0] == raw[0]);
    assert(raw[0] == ' ');
    assert(raw[1] == pre[1]);
    assert(raw[1] == '\'');
    lemma_trim_start_at(raw, 1);
    let r = raw.skip(1);
    assert(r[0] == raw[1]);
    // After the opening quote: the escaped text, spaces, the closing quote,
    // then a space.
    let body = r.drop_first();
    let after = body.skip(e.len() + gap + 1int);
    assert(body =~= e + (spaces(gap) + (seq!['\''] + after))) by {
        assert forall|i: int| 0 <= i < body.len() implies #[trigger] body[i] == (e + (spaces(gap) + (seq!['\''] + after)))[i] by {
            assert(body[i] == raw[i + 2]);
            if i < e.len() + gap + 1int {
                assert(raw[i + 2] == pre[i + 2]);
                assert(pre[i + 2] == field[i + 1]);
                assert(field[i + 1] == q[i + 1]);
                assert(q[i + 1] == (inner + seq!['\''])[i]);
            }
        }
    }
    assert(after.len() > 0);
    assert(after[0] == raw[e.len() + gap + 3int]);
    assert(after[0] == ' ') by {
        let j = e.len() + gap + 3int;
        if j < f + 1 {
            assert(raw[j] == pre[j]);
            assert(pre[j] == field[j - 1]);
        }
    }
    lemma_unquote_escaped(s, spaces(gap) + (seq!['\''] + after));
    lemma_unquote_spaces(gap, seq!['\''] + after);
    assert(unquote(seq!['\''] + after) =~= Seq::<char>::empty());
    assert(unquote(body) =~= s + spaces(gap));
    lemma_trim_end_spaces(s, gap);
}

/// Escaping keeps a printable text printable.
proof fn lemma_escape_printable(s: Seq<char>)
    requires
        forall|i: int| 0 <= i < s.len() ==> printable(#[trigger] s[i]),
    ensures
        forall|i: int| 0 <= i < escape_quotes(s).len() ==> printable(#[trigger] escape_quotes(s)[i]),
    decreases s.len(),
{
    if s.len() > 0 {
        let rest = s.drop_first();
        assert forall|i: int| 0 <= i < rest.len() implies printable(#[trigger] rest[i]) by {
            assert(rest[i] == s[i + 1]);
        }
        lemma_escape_printable(rest);
        let e = escape_quotes(s);
        let er = escape_quotes(rest);
        assert(printable(s[0]));
        if s[0] == '\'' {
            assert(e == seq!['\'', '\''] + er);
            assert forall|i: int| 0 <= i < e.len() implies printable(#[trigger] e[i]) by {
                if i >= 2 {
                    assert(e[i] == er[i - 2]);
                }
            }
        } else {
            assert(e == seq![s[0]] + er);
            assert forall|i: int| 0 <= i < e.len() implies printable(#[trigger] e[i]) by {
                if i >= 1 {
                    assert(e[i] == er[i - 1]);
                }
            }
        }
    }
}

/// Reading `a` then `b` records the entries of `a`, then those of `b`.
proof fn lemma_read_entries_concat(a: Seq<CardParts>, b: Seq<CardParts>)
    ensures
        read_entries(a + b) == read_entries(a) + read_entries(b),
    decreases b.len(),
{
    if b.len() == 0 {
        assert(a + b =~= a);
        assert(read_entries(a) + Seq::<Entry>::empty() =~= read_entries(a));
    } else {
        let ab = a + b;
        assert(ab.drop_last() =~= a + b.drop_last());
        assert(ab.last() == b.last());
        lemma_read_entries_concat(a, b.drop_last());
        match classify(card_bytes(b.last())) {
            CardKind::Entry(k, v) => {
                assert(read_entries(ab) =~= read_entries(a) + read_entries(b));
            },
            _ => {},
        }
    }
}

/// The first value under `key` in `a + b`: the one in `a`, else the one in
/// `b`.
proof fn lemma_lookup_concat(a: Seq<Entry>, b: Seq<Entry>, key: Seq<char>)
    ensures
        lookup(a + b, key) == (match lookup(a, key) {
            Some(v) => Some(v),
            None => lookup(b, key),
        }),
    decreases a.len(),
{
    if a.len() == 0 {
        assert(a + b =~= b);
    } else {
        assert((a + b)[0] == a[0]);
        assert((a + b).drop_first() =~= a.drop_first() + b);
        lemma_lookup_concat(a.drop_first(), b, key);
    }
}

/// A keyword of capital letters is one the reader gives back as written,
/// unless it is a commentary keyword.
proof fn lemma_capital_keyword(k: Seq<char>)
    requires
        0 < k.len() <= 6,
        forall|i: int| 0 <= i < k.len() ==> 'A' <= #[trigger] k[i] <= 'Z',
    ensures
        plain_keyword(k),
{
    reveal_strlit("COMMENT");
    reveal_strlit("HISTORY");
    assert(k.len() != "COMMENT"@.len());
    assert(k.len() != "HISTORY"@.len());
}

/// The keywords of the opening cards.
proof fn lemma_primary_keywords()
    ensures
        plain_keyword("SIMPLE"@),
        plain_keyword("BITPIX"@),
        plain_keyword("NAXIS"@),
        plain_keyword("EXTEND"@),
{
    reveal_strlit("SIMPLE");
    reveal_strlit("BITPIX");
    reveal_strlit("NAXIS");
    reveal_strlit("EXTEND");
    let a = "SIMPLE"@;
    assert forall|i: int| 0 <= i < a.len() implies 'A' <= #[trigger] a[i] <= 'Z' by {
        assert(i == 0 || i == 1 || i == 2 || i == 3 || i == 4 || i == 5);
    }
    lemma_capital_keyword(a);
    let b = "BITPIX"@;
    assert forall|i: int| 0 <= i < b.len() implies 'A' <= #[trigger] b[i] <= 'Z' by {
        assert(i == 0 || i == 1 || i == 2 || i == 3 || i == 4 || i == 5);
    }
    lemma_capital_keyword(b);
    let c = "NAXIS"@;
    assert forall|i: int| 0 <= i < c.len() implies 'A' <= #[trigger] c[i] <= 'Z' by {
        assert(i == 0 || i == 1 || i == 2 || i == 3 || i == 4);
    }
    lemma_capital_keyword(c);
    let d = "EXTEND"@;
    assert forall|i: int| 0 <= i < d.len() implies 'A' <= #[trigger] d[i] <= 'Z' by {
        assert(i == 0 || i == 1 || i == 2 || i == 3 || i == 4 || i == 5);
    }
    lemma_capital_keyword(d);
}

/// What the reader records of the cards a header-only primary HDU opens with.
proof fn lemma_primary_entries()
    ensures
        read_entries(primary_parts()) == seq![
            ("SIMPLE"@, ValueView::Bool(true)),
            ("BITPIX"@, ValueView::Int(8)),
            ("NAXIS"@, ValueView::Int(0)),
            ("EXTEND"@, ValueView::Bool(true)),
        ],
        forall|j: int| 0 <= j < primary_parts().len() ==> !(#[trigger] classify(card_bytes(primary_parts()[j])) is End),
{
    let p = primary_parts();
    lemma_primary_keywords();
    lemma_logical_card_reads_back("SIMPLE"@, true, "conforms to the FITS standard"@);
    lemma_integer_card_reads_back("BITPIX"@, 8, "no data, minimum width"@);
    lemma_integer_card_reads_back("NAXIS"@, 0, "no data"@);
    lemma_logical_card_reads_back("EXTEND"@, true, ""@);
    assert(p[0] == ("SIMPLE"@, Some(bool_field(true)), "conforms to the FITS standard"@));
    assert(p[1] == ("BITPIX"@, Some(int_field(8)), "no data, minimum width"@));
    assert(p[2] == ("NAXIS"@, Some(int_field(0)), "no data"@));
    assert(p[3] == ("EXTEND"@, Some(bool_field(true)), ""@));
    let e0 = ("SIMPLE"@, ValueView::Bool(true));
    let e1 = ("BITPIX"@, ValueView::Int(8));
    let e2 = ("NAXIS"@, ValueView::Int(0));
    let e3 = ("EXTEND"@, ValueView::Bool(true));
    assert(p.take(0) =~= Seq::<CardParts>::empty());
    lemma_read_entries_step(p, 0);
    assert(read_entries(p.take(1)) =~= seq![e0]);
    lemma_read_entries_step(p, 1);
    assert(read_entries(p.take(2)) =~= seq![e0, e1]);
    lemma_read_entries_step(p, 2);
    assert(read_entries(p.take(3)) =~= seq![e0, e1, e2]);
    lemma_read_entries_step(p, 3);
    assert(read_entries(p.take(4)) =~= seq![e0, e1, e2, e3]);
    assert(p.take(4) =~= p);
}

/// The first values under `NAXIS`, `BITPIX` and `PCOUNT` of a header-only
/// HDU: its own, then the cards'.
proof fn lemma_primary_lookups(cards: Seq<CardParts>)
    ensures
        ({
            let entries = read_entries(primary_parts() + cards);
            &&& lookup(entries, "NAXIS"@) == Some(ValueView::Int(0))
            &&& lookup(entries, "BITPIX"@) == Some(ValueView::Int(8))
            &&& lookup(entries, "PCOUNT"@) == lookup(read_entries(cards), "PCOUNT"@)
        }),
{
    let p = primary_parts();
    lemma_primary_entries();
    lemma_read_entries_concat(p, cards);
    let pe = read_entries(p);
    lemma_lookup_concat(pe, read_entries(cards), "NAXIS"@);
    lemma_lookup_concat(pe, read_entries(cards), "BITPIX"@);
    lemma_lookup_concat(pe, read_entries(cards), "PCOUNT"@);
    reveal_strlit("SIMPLE");
    reveal_strlit("NAXIS");
    reveal_strlit("BITPIX");
    reveal_strlit("PCOUNT");
    reveal_strlit("EXTEND");
    let t1 = pe.drop_first();
    let t2 = t1.drop_first();
    let t3 = t2.drop_first();
    let t4 = t3.drop_first();
    assert(t1[0] == pe[1]);
    assert(t2[0] == pe[2]);
    assert(t3[0] == pe[3]);
    assert(t4 =~= Seq::<Entry>::empty());
    assert("SIMPLE"@.len() == 6 && "BITPIX"@.len() == 6 && "NAXIS"@.len() == 5 && "EXTEND"@.len() == 6);
    assert("PCOUNT"@[0] == 'P' && "SIMPLE"@[0] == 'S' && "BITPIX"@[0] == 'B' && "EXTEND"@[0] == 'E');
    assert(pe[0].0 == "SIMPLE"@ && pe[1].0 == "BITPIX"@ && pe[2].0 == "NAXIS"@ && pe[3].0 == "EXTEND"@);
    assert(pe[0].0 != "NAXIS"@);
    assert(pe[1].0 != "NAXIS"@);
    assert(lookup(t2, "NAXIS"@) == Some(ValueView::Int(0)));
    assert(lookup(t1, "NAXIS"@) == lookup(t2, "NAXIS"@));
    assert(lookup(pe, "NAXIS"@) == Some(ValueView::Int(0)));
    assert(pe[0].0 != "BITPIX"@);
    assert(lookup(t1, "BITPIX"@) == Some(ValueView::Int(8)));
    assert(lookup(pe, "BITPIX"@) == Some(ValueView::Int(8)));
    assert(pe[0].0 != "PCOUNT"@);
    assert(pe[1].0 != "PCOUNT"@);
    assert(pe[2].0 != "PCOUNT"@);
    assert(pe[3].0 != "PCOUNT"@);
    assert(lookup(t4, "PCOUNT"@) is None);
    assert(lookup(t3, "PCOUNT"@) is None);
    assert(lookup(t2, "PCOUNT"@) is None);
    assert(lookup(t1, "PCOUNT"@) is None);
    assert(lookup(pe, "PCOUNT"@) is None);
}

/// A header-only file opens with `SIMPLE  =`.
proof fn lemma_primary_magic(cards: Seq<CardParts>)
    ensures
        header_image(primary_parts() + cards).take(9) == simple_magic(),
{
    let p = primary_parts();
    let all = p + cards;
    let buf = header_image(all);
    lemma_header_layout(all);
    let first = p[0];
    let text = card_text(first);
    reveal_strlit("SIMPLE");
    assert(pad_right("SIMPLE"@, 8) =~= seq!['S', 'I', 'M', 'P', 'L', 'E', ' ', ' ']);
    assert(text.take(10) =~= seq!['S', 'I', 'M', 'P', 'L', 'E', ' ', ' ', '=', ' ']);
    assert forall|i: int| 0 <= i < 10 implies printable(#[trigger] text[i]) by {
        assert(text[i] == text.take(10)[i]);
    }
    lemma_printable_prefix(text, 10);
    assert(all[0] == first);
    let j0: int = 0;
    assert(card_at(buf, j0 * CARD) == card_bytes(all[j0]));
    assert(card_at(buf, 0) == card_bytes(first));
    assert forall|i: int| 0 <= i < 9 implies #[trigger] buf.take(9)[i] == simple_magic()[i] by {
        assert(buf[i] == card_at(buf, 0)[i]);
        assert(text[i] == text.take(10)[i]);
    }
    assert(buf.take(9) =~= simple_magic());
}

/// A header-only primary HDU reads back as one HDU with no data: the file
/// opens as FITS, its header records the four opening cards and then, in
/// order, what each card written after them holds, and the data (none)
/// starts at the end of the padded header. This holds for every list of
/// cards but those with a commentary card keyed `END` and left blank, or
/// that declare a heap (a positive `PCOUNT`), and up to the longest header
/// the reader accepts.
pub proof fn lemma_header_only_reads_back(cards: Seq<CardParts>)
    requires
        forall|j: int| 0 <= j < cards.len() ==> !(#[trigger] classify(card_bytes(cards[j])) is End),
        int_card(read_entries(cards), "PCOUNT"@, 0) <= 0,
        (cards.len() + 5) * CARD <= header_limit(),
    ensures
        ({
            let all = primary_parts() + cards;
            let buf = header_image(all);
            fits_spec(buf) == Ok::<Seq<HduView>, crate::fits::FitsErrorView>(seq![HduView {
                entries: read_entries(all),
                nblocks: buf.len() / (BLOCK as nat),
                data_offset: buf.len(),
                data_len: 0,
            }])
        }),
{
    let p = primary_parts();
    let all = p + cards;
    let buf = header_image(all);
    lemma_primary_entries();
    assert forall|j: int| 0 <= j < all.len() implies !(#[trigger] classify(card_bytes(all[j])) is End) by {
        if j < 4 {
            assert(all[j] == p[j]);
        } else {
            assert(all[j] == cards[j - 4]);
        }
    }
    lemma_header_reads_back(all);
    lemma_header_layout(all);
    lemma_primary_magic(cards);
    lemma_primary_lookups(cards);
    let entries = read_entries(all);
    assert(int_card(entries, "NAXIS"@, 0) == 0);
    assert(int_card(entries, "BITPIX"@, 8) == 8);
    assert(int_card(entries, "PCOUNT"@, 0) == int_card(read_entries(cards), "PCOUNT"@, 0));
    assert(crate::fits::hdu::element_count(entries) == 0);
    let gcount = crate::fits::hdu::at_least(int_card(entries, "GCOUNT"@, 1), 1);
    assert((8int / 8) * gcount * (0 + 0) == 0) by (nonlinear_arith);
    assert(data_bytes(entries) == 0);
    lemma_block_round(0);
    assert(block_round(0) == 0);
}

/// How the reader classifies card `j` of the header at `s`.
pub open spec fn kind_at(buf: Seq<u8>, s: int, j: int) -> CardKind {
    classify(card_at(buf, s + j * CARD))
}

/// Scanning cards `i..36` of a block without an error: when the scan ends,
/// a card among them is END with none before it END or an error; when it
/// goes on, none of them is either.
proof fn lemma_block_scan_cards(buf: Seq<u8>, s: int, b: int, i: int, acc: Seq<Entry>)
    requires
        0 <= b,
        0 <= i <= CARDS_PER_BLOCK,
        !(block_scan(buf, s + b * (BLOCK as int), i, acc) is Failed),
    ensures
        block_scan(buf, s + b * (BLOCK as int), i, acc) is Ended ==> exists|k: int|
            #![trigger kind_at(buf, s, k)]
            b * (CARDS_PER_BLOCK as int) + i <= k < (b + 1) * (CARDS_PER_BLOCK as int) && kind_at(buf, s, k) is End
                && forall|m: int| b * (CARDS_PER_BLOCK as int) + i <= m < k ==> !(#[trigger] kind_at(buf, s, m) is End) && !(kind_at(buf, s, m) is Bad),
        block_scan(buf, s + b * (BLOCK as int), i, acc) is Continue ==> forall|m: int|
            b * (CARDS_PER_BLOCK as int) + i <= m < (b + 1) * (CARDS_PER_BLOCK as int) ==> !(#[trigger] kind_at(buf, s, m) is End) && !(kind_at(buf, s, m) is Bad),
    decreases CARDS_PER_BLOCK - i,
{
    let off = s + b * (BLOCK as int);
    let j = b * (CARDS_PER_BLOCK as int) + i;
    if i < CARDS_PER_BLOCK {
        assert(off + i * CARD == s + j * CARD) by (nonlinear_arith)
            requires
                off == s + b * (BLOCK as int),
                j == b * (CARDS_PER_BLOCK as int) + i,
                BLOCK == 2880,
                CARD == 80,
                CARDS_PER_BLOCK == 36,
        ;
        assert(kind_at(buf, s, j) == classify(card_at(buf, off + i * CARD)));
        match classify(card_at(buf, off + i * CARD)) {
            CardKind::End => {},
            CardKind::Skip => {
                lemma_block_scan_cards(buf, s, b, i + 1, acc);
            },
            CardKind::Entry(k, v) => {
                lemma_block_scan_cards(buf, s, b, i + 1, acc.push((k, v)));
            },
            CardKind::Bad(_) => {},
        }
    }
}

/// A header that reads without an error has an END card, inside what it
/// reads, with no card before it END or an error; and it ends inside the
/// buffer.
proof fn lemma_scan_finds_end(buf: Seq<u8>, s: int, b: int, acc: Seq<Entry>)
    requires
        0 <= b,
        header_scan(buf, s, s + b * (BLOCK as int), acc) is Ok,
    ensures
        ({
            let end = header_scan(buf, s, s + b * (BLOCK as int), acc)->Ok_0.1;
            &&& end <= buf.len()
            &&& exists|e: int|
                #![trigger kind_at(buf, s, e)]
                b * (CARDS_PER_BLOCK as int) <= e && kind_at(buf, s, e) is End && s + (e + 1) * CARD <= end
                    && forall|m: int| b * (CARDS_PER_BLOCK as int) <= m < e ==> !(#[trigger] kind_at(buf, s, m) is End) && !(kind_at(buf, s, m) is Bad)
        }),
    decreases buf.len() - (s + b * (BLOCK as int)),
{
    let off = s + b * (BLOCK as int);
    lemma_block_scan_cards(buf, s, b, 0, acc);
    assert(b * (CARDS_PER_BLOCK as int) + 0 == b * (CARDS_PER_BLOCK as int));
    match block_scan(buf, off, 0, acc) {
        ScanStep::Ended(a) => {
            let k = choose|k: int|
                #![trigger kind_at(buf, s, k)]
                b * (CARDS_PER_BLOCK as int) <= k < (b + 1) * (CARDS_PER_BLOCK as int) && kind_at(buf, s, k) is End
                    && forall|m: int| b * (CARDS_PER_BLOCK as int) <= m < k ==> !(#[trigger] kind_at(buf, s, m) is End) && !(kind_at(buf, s, m) is Bad);
            assert(s + (k + 1) * CARD <= off + BLOCK) by (nonlinear_arith)
                requires
                    off == s + b * (BLOCK as int),
                    k < (b + 1) * (CARDS_PER_BLOCK as int),
                    BLOCK == 2880,
                    CARD == 80,
                    CARDS_PER_BLOCK == 36,
            ;
        },
        ScanStep::Continue(a) => {
            assert(s + (b + 1) * (BLOCK as int) == off + BLOCK);
            lemma_scan_finds_end(buf, s, b + 1, a);
            let e = choose|e: int|
                #![trigger kind_at(buf, s, e)]
                (b + 1) * (CARDS_PER_BLOCK as int) <= e && kind_at(buf, s, e) is End && s + (e + 1) * CARD <= header_scan(buf, s, s + (b + 1) * (BLOCK as int), a)->Ok_0.1
                    && forall|m: int| (b + 1) * (CARDS_PER_BLOCK as int) <= m < e ==> !(#[trigger] kind_at(buf, s, m) is End) && !(kind_at(buf, s, m) is Bad);
            assert forall|m: int| b * (CARDS_PER_BLOCK as int) <= m < e implies !(#[trigger] kind_at(buf, s, m) is End) && !(kind_at(buf, s, m) is Bad) by {
                if m >= (b + 1) * (CARDS_PER_BLOCK as int) {
                } else {
                }
            }
        },
        ScanStep::Failed(_) => {},
    }
}

/// The raw cards among the first `j` of a header region that a rewrite
/// keeps, one by one.
pub open spec fn kept_cards(region: Seq<u8>, cards: Seq<CardParts>, drops: Seq<bool>, j: nat) -> Seq<Seq<u8>>
    decreases j,
{
    if j == 0 {
        seq![]
    } else {
        let c = chunk(region, j - 1);
        let prev = kept_cards(region, cards, drops, (j - 1) as nat);
        if all_spaces(c) || displaced(cards, chunk_key(c)) || drops[j - 1] {
            prev
        } else {
            prev.push(c)
        }
    }
}

/// The kept cards are what a rewrite keeps, card by card, and each is one
/// of the region's first `j` cards.
proof fn lemma_kept_cards(region: Seq<u8>, cards: Seq<CardParts>, drops: Seq<bool>, j: nat)
    requires
        forall|m: int| 0 <= m < j ==> {
            &&& (#[trigger] chunk(region, m)).len() == CARD
            &&& !(classify(chunk(region, m)) is End)
            &&& !(classify(chunk(region, m)) is Bad)
        },
    ensures
        joined_images(kept_cards(region, cards, drops, j)) == kept_upto(region, cards, drops, j),
        plain_images(kept_cards(region, cards, drops, j)),
        kept_cards(region, cards, drops, j).len() <= j,
    decreases j,
{
    if j > 0 {
        lemma_kept_cards(region, cards, drops, (j - 1) as nat);
        let c = chunk(region, j - 1);
        let prev = kept_cards(region, cards, drops, (j - 1) as nat);
        if !(all_spaces(c) || displaced(cards, chunk_key(c)) || drops[j - 1]) {
            let now = prev.push(c);
            assert(now.drop_last() =~= prev);
            assert forall|i: int| 0 <= i < now.len() implies {
                &&& (#[trigger] now[i]).len() == CARD
                &&& !(classify(now[i]) is End)
                &&& !(classify(now[i]) is Bad)
            } by {
                if i < prev.len() {
                    assert(now[i] == prev[i]);
                }
            }
        }
    }
}

proof fn lemma_joined_concat(a: Seq<Seq<u8>>, b: Seq<Seq<u8>>)
    ensures
        joined_images(a + b) == joined_images(a) + joined_images(b),
        read_images(a + b) == read_images(a) + read_images(b),
    decreases b.len(),
{
    if b.len() == 0 {
        assert(a + b =~= a);
        assert(joined_images(a) + joined_images(b) =~= joined_images(a));
        assert(read_images(a) + read_images(b) =~= read_images(a));
    } else {
        let ab = a + b;
        assert(ab.drop_last() =~= a + b.drop_last());
        assert(ab.last() == b.last());
        lemma_joined_concat(a, b.drop_last());
        assert(joined_images(ab) =~= joined_images(a) + joined_images(b));
        match classify(b.last()) {
            CardKind::Entry(k, v) => {
                assert(read_images(ab) =~= read_images(a) + read_images(b));
            },
            _ => {},
        }
    }
}

proof fn lemma_plain_concat(a: Seq<Seq<u8>>, b: Seq<Seq<u8>>)
    requires
        plain_images(a),
        plain_images(b),
    ensures
        plain_images(a + b),
{
    assert forall|j: int| 0 <= j < (a + b).len() implies {
        &&& (#[trigger] (a + b)[j]).len() == CARD
        &&& !(classify((a + b)[j]) is End)
        &&& !(classify((a + b)[j]) is Bad)
    } by {
        if j < a.len() {
            assert((a + b)[j] == a[j]);
        } else {
            assert((a + b)[j] == b[j - a.len()]);
        }
    }
}

/// Where the first END of a region lies, from what the reader made of it.
proof fn lemma_first_end_at(region: Seq<u8>, n: nat, j: nat, e: nat)
    requires
        j <= e < n,
        ends_header(chunk(region, e as int)),
        forall|m: int| j <= m < e ==> !ends_header(#[trigger] chunk(region, m)),
    ensures
        first_end(region, n, j) == e,
    decreases e - j,
{
    if j < e {
        lemma_first_end_at(region, n, j + 1, e);
    }
}

/// A card the reader reads as END ends the header, and one it reads on
/// from does not.
proof fn lemma_ends_header_kind(card: Seq<u8>)
    requires
        card.len() == CARD,
    ensures
        classify(card) is End ==> ends_header(card),
        !(classify(card) is End) && !(classify(card) is Bad) ==> !ends_header(card),
{
    reveal_strlit("END");
    let kb = card.take(8);
    if valid_utf8(kb) {
        assert(chunk_key(card) == trim_end(decode_utf8(kb)));
    } else {
        assert(chunk_key(card) == Seq::<char>::empty());
        assert(chunk_key(card) != "END"@);
    }
}

/// A rewritten header reads as the cards it keeps, then the new ones: when
/// the header a rewrite replaces reads without an error and ends at
/// `data`, the header written in its place reads, in order, as the entries
/// of the original cards it keeps and then those of the new cards, and ends
/// at its own padding. This holds unless a new card is a commentary card
/// keyed `END` and left blank, and up to the longest header the reader
/// accepts.
pub proof fn lemma_rewrite_reads_back(original: Seq<u8>, start: int, data: int, cards: Seq<CardParts>, drops: Seq<bool>)
    requires
        0 <= start,
        header_scan(original, start, start, seq![]) is Ok,
        header_scan(original, start, start, seq![])->Ok_0.1 == data,
        forall|j: int| 0 <= j < cards.len() ==> !(#[trigger] classify(card_bytes(cards[j])) is End),
        (data - start) + (cards.len() + 1) * CARD <= header_limit(),
    ensures
        ({
            let region = original.subrange(start, data);
            let n = ((data - start) / (CARD as int)) as nat;
            let kept = kept_cards(region, cards, drops, first_end(region, n, 0));
            header_scan(rewritten(original, start, data, cards, drops), start, start, seq![])
                == Ok::<(Seq<Entry>, int), crate::fits::FitsErrorView>((
                    read_images(kept) + read_entries(cards),
                    start + block_round(((kept.len() + cards.len() + 1) * CARD) as nat),
                ))
        }),
{
    lemma_rewrite_layout(original, start, data, cards, drops);
}

/// How a rewrite lays out its file: the header it replaces ends at its
/// first END, before which every card reads on; the new header holds the
/// cards kept, then the new ones, then END, padded to whole blocks; and
/// what followed the old header follows the new one.
#[verifier::rlimit(80)]
#[verifier::spinoff_prover]
proof fn lemma_rewrite_layout(original: Seq<u8>, start: int, data: int, cards: Seq<CardParts>, drops: Seq<bool>)
    requires
        0 <= start,
        header_scan(original, start, start, seq![]) is Ok,
        header_scan(original, start, start, seq![])->Ok_0.1 == data,
        forall|j: int| 0 <= j < cards.len() ==> !(#[trigger] classify(card_bytes(cards[j])) is End),
        (data - start) + (cards.len() + 1) * CARD <= header_limit(),
    ensures
        ({
            let region = original.subrange(start, data);
            let n = ((data - start) / (CARD as int)) as nat;
            let e = first_end(region, n, 0);
            let kept = kept_cards(region, cards, drops, e);
            let imgs = kept + images_of(cards);
            let out = rewritten(original, start, data, cards, drops);
            let new_end = start + block_round(((kept.len() + cards.len() + 1) * CARD) as nat);
            &&& e < n
            &&& forall|m: int| 0 <= m <= e ==> #[trigger] chunk(region, m) == card_at(original, start + m * CARD)
            &&& forall|m: int| 0 <= m < e ==> {
                &&& (#[trigger] chunk(region, m)).len() == CARD
                &&& !(classify(chunk(region, m)) is End)
                &&& !(classify(chunk(region, m)) is Bad)
            }
            &&& header_scan(original, start, start, seq![])->Ok_0.0 == read_images(region_cards(region, e as int))
            &&& plain_images(imgs)
            &&& holds_header(out, start, imgs)
            &&& joined_images(kept) == kept_upto(region, cards, drops, e)
            &&& kept.len() <= e
            &&& out.len() == new_end + (original.len() - data)
            &&& (new_end - start) % (BLOCK as int) == 0
            &&& start + BLOCK <= new_end
            &&& forall|x: int| 0 <= x < start ==> #[trigger] out[x] == original[x]
            &&& forall|x: int| data <= x < original.len() ==> #[trigger] original[x] == out[x + (new_end - data)]
            &&& header_scan(out, start, start, seq![])
                == Ok::<(Seq<Entry>, int), crate::fits::FitsErrorView>((read_images(kept) + read_entries(cards), new_end))
        }),
{
    lemma_scan_finds_end(original, start, 0, seq![]);
    assert(start + 0 * (BLOCK as int) == start);
    let e = choose|e: int|
        #![trigger kind_at(original, start, e)]
        0 * (CARDS_PER_BLOCK as int) <= e && kind_at(original, start, e) is End && start + (e + 1) * CARD <= data
            && forall|m: int| 0 * (CARDS_PER_BLOCK as int) <= m < e ==> !(#[trigger] kind_at(original, start, m) is End) && !(kind_at(original, start, m) is Bad);
    let region = original.subrange(start, data);
    let n = ((data - start) / (CARD as int)) as nat;
    assert(e < n) by (nonlinear_arith)
        requires
            start + (e + 1) * CARD <= data,
            n == (data - start) / (CARD as int),
            CARD == 80,
            0 <= e,
    ;
    // The region's cards are the original's.
    assert forall|m: int| 0 <= m <= e implies #[trigger] chunk(region, m) == card_at(original, start + m * CARD) by {
        assert(m * CARD + CARD <= (e + 1) * CARD) by (nonlinear_arith)
            requires
                0 <= m <= e,
        ;
        assert(chunk(region, m) =~= card_at(original, start + m * CARD));
    }
    assert forall|m: int| 0 <= m < e implies {
        &&& (#[trigger] chunk(region, m)).len() == CARD
        &&& !(classify(chunk(region, m)) is End)
        &&& !(classify(chunk(region, m)) is Bad)
    } by {
        assert(chunk(region, m) == card_at(original, start + m * CARD));
        assert(kind_at(original, start, m) == classify(chunk(region, m)));
    }
    assert forall|m: int| 0 <= m < e implies !ends_header(#[trigger] chunk(region, m)) by {
        lemma_ends_header_kind(chunk(region, m));
    }
    assert(chunk(region, e) == card_at(original, start + e * CARD));
    assert(kind_at(original, start, e) == classify(chunk(region, e)));
    lemma_ends_header_kind(chunk(region, e));
    lemma_first_end_at(region, n, 0, e as nat);
    let kept = kept_cards(region, cards, drops, e as nat);
    lemma_kept_cards(region, cards, drops, e as nat);
    let news = images_of(cards);
    lemma_images_of(cards);
    lemma_written_plain(cards);
    let imgs = kept + news;
    lemma_plain_concat(kept, news);
    lemma_joined_concat(kept, news);
    // The rewritten file holds, at `start`, the header made of these cards.
    let out = rewritten(original, start, data, cards, drops);
    let body = kept_upto(region, cards, drops, e as nat) + cards_image(cards) + end_card();
    assert(body == joined_images(imgs) + end_card());
    assert(out == original.take(start) + body + block_padding(body.len()) + original.skip(data));
    lemma_block_round(body.len());
    assert(out.subrange(start, start + body.len()) =~= body);
    assert(holds_header(out, start, imgs));
    assert(kept.len() * CARD <= e * CARD) by (nonlinear_arith)
        requires
            kept.len() <= e,
    ;
    assert(imgs.len() == kept.len() + cards.len());
    lemma_held_header_reads(out, start, imgs);
    // The old header reads as its cards up to END.
    assert(header_cards(original, start, 0) =~= Seq::<Seq<u8>>::empty());
    lemma_scan_reads(original, start, 0, seq![]);
    assert(header_cards(original, start, e) =~= region_cards(region, e));
    // Lengths and the bytes around the new header.
    assert forall|i: int| 0 <= i < imgs.len() implies (#[trigger] imgs[i]).len() == CARD by {}
    lemma_joined_images(imgs);
    let total = ((kept.len() + cards.len() + 1) * CARD) as nat;
    assert(body.len() == total);
    lemma_block_round(total);
    let new_end = start + block_round(total);
    assert(block_round(total) >= BLOCK) by (nonlinear_arith)
        requires
            block_round(total) >= total,
            total >= CARD,
            block_round(total) % (BLOCK as nat) == 0,
            CARD == 80,
            BLOCK == 2880,
    ;
    assert(out.len() == new_end + (original.len() - data));
    assert forall|x: int| 0 <= x < start implies #[trigger] out[x] == original[x] by {
        assert(out[x] == original.take(start)[x]);
    }
    assert forall|x: int| data <= x < original.len() implies #[trigger] original[x] == out[x + (new_end - data)] by {
        assert(out[x + (new_end - data)] == original.skip(data)[x - data]);
    }
}


/// The first `j` cards of the header at `s`, as raw images.
pub open spec fn header_cards(buf: Seq<u8>, s: int, j: int) -> Seq<Seq<u8>> {
    Seq::new(j as nat, |m: int| card_at(buf, s + m * CARD))
}

proof fn lemma_header_cards_step(buf: Seq<u8>, s: int, j: int)
    requires
        0 <= j,
    ensures
        read_images(header_cards(buf, s, j + 1)) == match classify(card_at(buf, s + j * CARD)) {
            CardKind::Entry(k, v) => read_images(header_cards(buf, s, j)).push((k, v)),
            _ => read_images(header_cards(buf, s, j)),
        },
{
    assert(header_cards(buf, s, j + 1).drop_last() =~= header_cards(buf, s, j));
    assert(header_cards(buf, s, j + 1).last() == card_at(buf, s + j * CARD));
}

/// Scanning cards `i..36` of block `b` records the entries of the header's
/// cards up to the first END, or up to the block's end.
proof fn lemma_block_scan_reads(buf: Seq<u8>, s: int, b: int, i: int, acc: Seq<Entry>)
    requires
        0 <= b,
        0 <= i <= CARDS_PER_BLOCK,
        acc == read_images(header_cards(buf, s, b * (CARDS_PER_BLOCK as int) + i)),
        !(block_scan(buf, s + b * (BLOCK as int), i, acc) is Failed),
    ensures
        forall|e: int|
            #![trigger kind_at(buf, s, e)]
            b * (CARDS_PER_BLOCK as int) + i <= e && kind_at(buf, s, e) is End
                && (forall|m: int| b * (CARDS_PER_BLOCK as int) + i <= m < e ==> !(#[trigger] kind_at(buf, s, m) is End))
                ==> match block_scan(buf, s + b * (BLOCK as int), i, acc) {
                    ScanStep::Ended(a) => a == read_images(header_cards(buf, s, e)),
                    ScanStep::Continue(a) => e >= (b + 1) * (CARDS_PER_BLOCK as int),
                    ScanStep::Failed(_) => true,
                },
        block_scan(buf, s + b * (BLOCK as int), i, acc) matches ScanStep::Continue(a)
            ==> a == read_images(header_cards(buf, s, (b + 1) * (CARDS_PER_BLOCK as int))),
    decreases CARDS_PER_BLOCK - i,
{
    let off = s + b * (BLOCK as int);
    let j = b * (CARDS_PER_BLOCK as int) + i;
    if i < CARDS_PER_BLOCK {
        assert(off + i * CARD == s + j * CARD) by (nonlinear_arith)
            requires
                off == s + b * (BLOCK as int),
                j == b * (CARDS_PER_BLOCK as int) + i,
                BLOCK == 2880,
                CARD == 80,
                CARDS_PER_BLOCK == 36,
        ;
        assert(kind_at(buf, s, j) == classify(card_at(buf, off + i * CARD)));
        lemma_header_cards_step(buf, s, j);
        assert(j + 1 == b * (CARDS_PER_BLOCK as int) + (i + 1));
        match classify(card_at(buf, off + i * CARD)) {
            CardKind::End => {
                assert forall|e: int|
                    #![trigger kind_at(buf, s, e)]
                    j <= e && kind_at(buf, s, e) is End
                        && (forall|m: int| j <= m < e ==> !(#[trigger] kind_at(buf, s, m) is End))
                    implies e == j by {
                    if e > j {
                        assert(!(kind_at(buf, s, j) is End));
                    }
                }
            },
            CardKind::Skip => {
                lemma_block_scan_reads(buf, s, b, i + 1, acc);
            },
            CardKind::Entry(k, v) => {
                lemma_block_scan_reads(buf, s, b, i + 1, acc.push((k, v)));
            },
            CardKind::Bad(_) => {},
        }
    } else {
        assert(j == (b + 1) * (CARDS_PER_BLOCK as int));
    }
}

/// A header that reads without an error records the entries of its cards
/// up to its first END.
proof fn lemma_scan_reads(buf: Seq<u8>, s: int, b: int, acc: Seq<Entry>)
    requires
        0 <= b,
        header_scan(buf, s, s + b * (BLOCK as int), acc) is Ok,
        acc == read_images(header_cards(buf, s, b * (CARDS_PER_BLOCK as int))),
    ensures
        forall|e: int|
            #![trigger kind_at(buf, s, e)]
            b * (CARDS_PER_BLOCK as int) <= e && kind_at(buf, s, e) is End
                && (forall|m: int| b * (CARDS_PER_BLOCK as int) <= m < e ==> !(#[trigger] kind_at(buf, s, m) is End))
                ==> header_scan(buf, s, s + b * (BLOCK as int), acc)->Ok_0.0 == read_images(header_cards(buf, s, e)),
    decreases buf.len() - (s + b * (BLOCK as int)),
{
    let off = s + b * (BLOCK as int);
    assert(b * (CARDS_PER_BLOCK as int) + 0 == b * (CARDS_PER_BLOCK as int));
    lemma_block_scan_reads(buf, s, b, 0, acc);
    match block_scan(buf, off, 0, acc) {
        ScanStep::Continue(a) => {
            assert(s + (b + 1) * (BLOCK as int) == off + BLOCK);
            lemma_scan_reads(buf, s, b + 1, a);
            assert forall|e: int|
                #![trigger kind_at(buf, s, e)]
                b * (CARDS_PER_BLOCK as int) <= e && kind_at(buf, s, e) is End
                    && (forall|m: int| b * (CARDS_PER_BLOCK as int) <= m < e ==> !(#[trigger] kind_at(buf, s, m) is End))
                implies header_scan(buf, s, off, acc)->Ok_0.0 == read_images(header_cards(buf, s, e)) by {
                assert(e >= (b + 1) * (CARDS_PER_BLOCK as int));
                assert forall|m: int| (b + 1) * (CARDS_PER_BLOCK as int) <= m < e implies !(#[trigger] kind_at(buf, s, m) is End) by {}
            }
        },
        _ => {},
    }
}

/// The same cards at two places read the same.
proof fn lemma_block_scan_shift(b1: Seq<u8>, o1: int, b2: Seq<u8>, o2: int, i: int, acc: Seq<Entry>)
    requires
        0 <= i <= CARDS_PER_BLOCK,
        forall|m: int| i <= m < CARDS_PER_BLOCK ==> #[trigger] card_at(b1, o1 + m * CARD) == card_at(b2, o2 + m * CARD),
    ensures
        block_scan(b1, o1, i, acc) == block_scan(b2, o2, i, acc),
    decreases CARDS_PER_BLOCK - i,
{
    if i < CARDS_PER_BLOCK {
        assert(card_at(b1, o1 + i * CARD) == card_at(b2, o2 + i * CARD));
        match classify(card_at(b1, o1 + i * CARD)) {
            CardKind::Skip => lemma_block_scan_shift(b1, o1, b2, o2, i + 1, acc),
            CardKind::Entry(k, v) => lemma_block_scan_shift(b1, o1, b2, o2, i + 1, acc.push((k, v))),
            _ => {},
        }
    }
}

/// A header that reads ends a whole number of blocks after where it was
/// read from, at least one block on, inside the buffer.
proof fn lemma_header_scan_end(buf: Seq<u8>, s: int, off: int, acc: Seq<Entry>)
    requires
        header_scan(buf, s, off, acc) is Ok,
    ensures
        off + BLOCK <= header_scan(buf, s, off, acc)->Ok_0.1 <= buf.len(),
        (header_scan(buf, s, off, acc)->Ok_0.1 - off) % (BLOCK as int) == 0,
    decreases buf.len() - off,
{
    match block_scan(buf, off, 0, acc) {
        ScanStep::Continue(a) => {
            lemma_header_scan_end(buf, s, off + BLOCK, a);
            let e = header_scan(buf, s, off, acc)->Ok_0.1;
            assert((e - off) % (BLOCK as int) == 0) by (nonlinear_arith)
                requires
                    (e - (off + BLOCK)) % (BLOCK as int) == 0,
                    BLOCK == 2880,
            ;
        },
        _ => {},
    }
}

/// The same header bytes at another place, in a buffer as long past them,
/// read as the same entries, ending as far on.
proof fn lemma_header_scan_shift(b1: Seq<u8>, s1: int, off1: int, b2: Seq<u8>, s2: int, off2: int, acc: Seq<Entry>)
    requires
        header_scan(b1, s1, off1, acc) is Ok,
        off1 - s1 == off2 - s2,
        0 <= off2,
        off2 + (header_scan(b1, s1, off1, acc)->Ok_0.1 - off1) <= b2.len(),
        forall|x: int| off1 <= x < header_scan(b1, s1, off1, acc)->Ok_0.1 ==> #[trigger] b1[x] == b2[x + (off2 - off1)],
    ensures
        header_scan(b2, s2, off2, acc) == Ok::<(Seq<Entry>, int), crate::fits::FitsErrorView>((
            header_scan(b1, s1, off1, acc)->Ok_0.0,
            off2 + (header_scan(b1, s1, off1, acc)->Ok_0.1 - off1),
        )),
    decreases b1.len() - off1,
{
    let e = header_scan(b1, s1, off1, acc)->Ok_0.1;
    lemma_header_scan_end(b1, s1, off1, acc);
    assert forall|m: int| 0 <= m < CARDS_PER_BLOCK implies #[trigger] card_at(b1, off1 + m * CARD) == card_at(b2, off2 + m * CARD) by {
        assert forall|x: int| 0 <= x < CARD implies #[trigger] card_at(b1, off1 + m * CARD)[x] == card_at(b2, off2 + m * CARD)[x] by {
            assert(b1[off1 + m * CARD + x] == b2[off1 + m * CARD + x + (off2 - off1)]);
        }
        assert(card_at(b1, off1 + m * CARD) =~= card_at(b2, off2 + m * CARD));
    }
    lemma_block_scan_shift(b1, off1, b2, off2, 0, acc);
    match block_scan(b1, off1, 0, acc) {
        ScanStep::Continue(a) => {
            lemma_header_scan_end(b1, s1, off1 + BLOCK, a);
            lemma_header_scan_shift(b1, s1, off1 + BLOCK, b2, s2, off2 + BLOCK, a);
        },
        _ => {},
    }
}

/// Where the header of an HDU starts.
pub open spec fn header_start(h: HduView) -> int {
    h.data_offset - h.nblocks * BLOCK
}

/// An HDU found `d` bytes further on.
pub open spec fn shifted(h: HduView, d: int) -> HduView {
    HduView { data_offset: (h.data_offset + d) as nat, ..h }
}

proof fn lemma_elements_nonneg(entries: Seq<Entry>)
    ensures
        element_count(entries) >= 0,
{
    let naxis = crate::fits::hdu::at_least(int_card(entries, "NAXIS"@, 0), 0);
    if naxis > 0 {
        lemma_axes_nonneg(entries, naxis as nat);
    }
}

proof fn lemma_axes_nonneg(entries: Seq<Entry>, n: nat)
    ensures
        axes_product(entries, n) >= 0,
    decreases n,
{
    if n > 0 {
        lemma_axes_nonneg(entries, (n - 1) as nat);
        let a = axes_product(entries, (n - 1) as nat);
        let x = crate::fits::hdu::at_least(int_card(entries, axis_key(n), 0), 0);
        assert(a * x >= 0) by (nonlinear_arith)
            requires
                a >= 0,
                x >= 0,
        ;
    }
}

/// The HDUs a scan finds from `off` follow those it was given, the first at
/// `off` and each other at least a block after it; each found HDU's header
/// reads, from where it starts, as its entries and ends at its data, and
/// its data ends inside the buffer.
proof fn lemma_hdu_scan_starts(b: Seq<u8>, off: int, acc: Seq<HduView>)
    requires
        hdu_scan(b, off, acc) is Ok,
    ensures
        ({
            let r = hdu_scan(b, off, acc)->Ok_0;
            &&& r.len() >= acc.len()
            &&& r.take(acc.len() as int) == acc
            &&& (off < 0 || off >= b.len()) ==> r == acc
            &&& 0 <= off < b.len() ==> {
                &&& r.len() > acc.len()
                &&& header_start(r[acc.len() as int]) == off
                &&& forall|i: int| acc.len() < i < r.len() ==> #[trigger] header_start(r[i]) >= off + BLOCK
            }
            &&& forall|i: int| acc.len() <= i < r.len() ==> {
                &&& header_scan(b, header_start(#[trigger] r[i]), header_start(r[i]), seq![])
                    == Ok::<(Seq<Entry>, int), crate::fits::FitsErrorView>((r[i].entries, r[i].data_offset as int))
                &&& r[i].data_len == data_bytes(r[i].entries)
                &&& r[i].data_offset + data_bytes(r[i].entries) <= b.len()
                &&& header_start(r[i]) + BLOCK <= r[i].data_offset
                &&& (r[i].data_offset - header_start(r[i])) % (BLOCK as int) == 0
            }
        }),
    decreases b.len() - off,
{
    let r = hdu_scan(b, off, acc)->Ok_0;
    if off < 0 || off >= b.len() {
        assert(r.take(acc.len() as int) =~= acc);
    } else {
        let (entries, end) = header_scan(b, off, off, seq![])->Ok_0;
        lemma_header_scan_end(b, off, off, seq![]);
        let dl = data_bytes(entries);
        lemma_elements_nonneg(entries);
        assert(dl >= 0) by (nonlinear_arith)
            requires
                dl == (crate::fits::hdu::abs(int_card(entries, "BITPIX"@, 8)) / 8) * crate::fits::hdu::at_least(int_card(entries, "GCOUNT"@, 1), 1)
                    * (element_count(entries) + crate::fits::hdu::at_least(int_card(entries, "PCOUNT"@, 0), 0)),
                element_count(entries) >= 0,
                crate::fits::hdu::abs(int_card(entries, "BITPIX"@, 8)) >= 0,
                crate::fits::hdu::at_least(int_card(entries, "GCOUNT"@, 1), 1) >= 1,
                crate::fits::hdu::at_least(int_card(entries, "PCOUNT"@, 0), 0) >= 0,
        {
        }
        let h = HduView { entries, nblocks: ((end - off) / (BLOCK as int)) as nat, data_offset: end as nat, data_len: dl as nat };
        assert(header_start(h) == off) by (nonlinear_arith)
            requires
                (end - off) % (BLOCK as int) == 0,
                end - off >= BLOCK,
                h.nblocks == (end - off) / (BLOCK as int),
                h.data_offset == end,
                BLOCK == 2880,
        ;
        lemma_block_round(dl as nat);
        let next = end + block_round(dl as nat);
        if next <= off || next >= b.len() {
            assert(r =~= acc.push(h));
            assert(r.take(acc.len() as int) =~= acc);
        } else {
            lemma_hdu_scan_starts(b, next, acc.push(h));
            assert(r.take(acc.len() + 1int) == acc.push(h));
            assert(r[acc.len() as int] == acc.push(h)[acc.len() as int]);
            assert(r.take(acc.len() as int) =~= acc.push(h).take(acc.len() as int));
            assert(acc.push(h).take(acc.len() as int) =~= acc);
            assert forall|i: int| acc.len() < i < r.len() implies #[trigger] header_start(r[i]) >= off + BLOCK by {
                if i > acc.len() + 1 {
                } else {
                    assert(header_start(r[i]) == next);
                }
            }
        }
    }
}

/// The same bytes from another place on scan as the same HDUs, each found
/// as far further on.
proof fn lemma_hdu_scan_shift(b1: Seq<u8>, off1: int, acc1: Seq<HduView>, b2: Seq<u8>, off2: int, acc2: Seq<HduView>)
    requires
        hdu_scan(b2, off2, acc2) is Ok,
        0 <= off1,
        0 <= off2,
        b1.len() - off1 == b2.len() - off2,
        forall|x: int| off2 <= x < b2.len() ==> #[trigger] b2[x] == b1[x + (off1 - off2)],
        acc1.len() == acc2.len(),
    ensures
        hdu_scan(b1, off1, acc1) is Ok,
        hdu_scan(b1, off1, acc1)->Ok_0.len() == hdu_scan(b2, off2, acc2)->Ok_0.len(),
        forall|i: int| acc1.len() <= i < hdu_scan(b1, off1, acc1)->Ok_0.len()
            ==> #[trigger] hdu_scan(b1, off1, acc1)->Ok_0[i] == shifted(hdu_scan(b2, off2, acc2)->Ok_0[i], off1 - off2),
    decreases b2.len() - off2,
{
    let d = off1 - off2;
    if off2 < b2.len() {
        let (entries, e2) = header_scan(b2, off2, off2, seq![])->Ok_0;
        lemma_header_scan_end(b2, off2, off2, seq![]);
        assert forall|x: int| off2 <= x < e2 implies #[trigger] b2[x] == b1[x + (off1 - off2)] by {}
        lemma_header_scan_shift(b2, off2, off2, b1, off1, off1, seq![]);
        let e1 = e2 + d;
        let dl = data_bytes(entries);
        if e2 + dl <= b2.len() {
            let h2 = HduView { entries, nblocks: ((e2 - off2) / (BLOCK as int)) as nat, data_offset: e2 as nat, data_len: dl as nat };
            let h1 = HduView { entries, nblocks: ((e1 - off1) / (BLOCK as int)) as nat, data_offset: e1 as nat, data_len: dl as nat };
            assert(h1 == shifted(h2, d));
            let next2 = e2 + block_round(dl as nat);
            let next1 = e1 + block_round(dl as nat);
            if next2 <= off2 || next2 >= b2.len() {
            } else {
                assert forall|x: int| next2 <= x < b2.len() implies #[trigger] b2[x] == b1[x + (next1 - next2)] by {}
                lemma_hdu_scan_shift(b1, next1, acc1.push(h1), b2, next2, acc2.push(h2));
                lemma_hdu_scan_starts(b1, next1, acc1.push(h1));
                lemma_hdu_scan_starts(b2, next2, acc2.push(h2));
                let r1 = hdu_scan(b1, off1, acc1)->Ok_0;
                let r2 = hdu_scan(b2, off2, acc2)->Ok_0;
                assert(r1[acc1.len() as int] == r1.take(acc1.len() + 1int)[acc1.len() as int]);
                assert(r2[acc2.len() as int] == r2.take(acc2.len() + 1int)[acc2.len() as int]);
            }
        }
    }
}

/// A keyword a card writes as is: one to eight printable ASCII characters
/// without a space (commentary keywords included).
pub open spec fn card_keyword(k: Seq<char>) -> bool {
    &&& 0 < k.len() <= 8
    &&& forall|i: int| 0 <= i < k.len() ==> '!' <= #[trigger] k[i] <= '~'
}

/// A valued card with such a keyword: a rewrite reads the same keyword
/// from it, the reader records it under that keyword if at all, and it is
/// neither blank, nor END, nor an error.
proof fn lemma_keyed_card(p: CardParts)
    requires
        card_keyword(p.0),
        p.1 is Some,
    ensures
        card_bytes(p).len() == CARD,
        chunk_key(card_bytes(p)) == p.0,
        classify(card_bytes(p)) matches CardKind::Entry(k, _) ==> k == p.0,
        !(classify(card_bytes(p)) is End),
        !(classify(card_bytes(p)) is Bad),
        !all_spaces(card_bytes(p)),
        !ends_header(card_bytes(p)),
{
    let key = p.0;
    let text = card_text(p);
    let padded = pad_right(key, 8);
    assert(padded =~= key + spaces((8 - key.len()) as nat));
    let v = p.1->Some_0;
    let head = padded + value_indicator() + v;
    if p.2.len() == 0 {
        assert(text == head);
    } else {
        assert(text == head + comment_separator() + p.2);
    }
    assert(text.len() >= 10);
    assert(text[8] == '=');
    assert forall|i: int| 0 <= i < 10 implies printable(#[trigger] text[i]) by {
        if i < key.len() {
            assert(text[i] == key[i]);
        } else if i < 8 {
            assert(text[i] == ' ');
        } else if i == 9 {
            assert(text[i] == ' ');
        }
    }
    lemma_printable_prefix(text, 10);
    let card = card_bytes(p);
    assert(card == card_image(encode_utf8(text)));
    lemma_card_image_printable(encode_utf8(text));
    lemma_card_never_bad(card);
    let kb = card.take(8);
    assert forall|i: int| 0 <= i < kb.len() implies #[trigger] kb[i] < 0x80 by {
        assert(kb[i] == card[i]);
    }
    lemma_ascii_utf8(kb);
    assert(decode_utf8(kb) =~= padded) by {
        assert forall|i: int| 0 <= i < 8 implies #[trigger] decode_utf8(kb)[i] == padded[i] by {
            assert(kb[i] == card[i]);
            assert(text[i] == padded[i]);
        }
    }
    assert forall|i: int| key.len() <= i < padded.len() implies is_ws(#[trigger] padded[i]) by {
        assert(padded[i] == ' ');
    }
    assert(padded[key.len() - 1] == key[key.len() - 1]);
    lemma_trim_end_at(padded, key.len() as int);
    assert(trim_end(padded) =~= key);
    assert(card[8] == 0x3Du8);
    assert(card.skip(8)[0] == card[8]);
    assert(!all_spaces(card.skip(8)));
    assert(!all_spaces(card));
    let rb = card.skip(9);
    assert forall|i: int| 0 <= i < rb.len() implies #[trigger] rb[i] < 0x80 by {
        assert(rb[i] == card[i + 9]);
    }
    lemma_ascii_utf8(rb);
}

/// The keywords that fix where an HDU's data ends, and the one that opens
/// a FITS file.
pub open spec fn structural_key(k: Seq<char>) -> bool {
    ||| k == "SIMPLE"@
    ||| k == "BITPIX"@
    ||| k == "NAXIS"@
    ||| k == "PCOUNT"@
    ||| k == "GCOUNT"@
    ||| exists|n: nat| n >= 1 && k == #[trigger] axis_key(n)
}

/// The first `j` cards of a header region.
pub open spec fn region_cards(region: Seq<u8>, j: int) -> Seq<Seq<u8>> {
    Seq::new(j as nat, |m: int| chunk(region, m))
}

/// Appending an entry under another keyword does not change a lookup.
proof fn lemma_lookup_push_other(a: Seq<Entry>, x: Entry, key: Seq<char>)
    requires
        x.0 != key,
    ensures
        lookup(a.push(x), key) == lookup(a, key),
{
    lemma_lookup_concat(a, seq![x], key);
    assert(a + seq![x] =~= a.push(x));
    assert(seq![x].drop_first() =~= Seq::<Entry>::empty());
    assert(seq![x][0] == x);
    assert(lookup(seq![x], key) == lookup(Seq::<Entry>::empty(), key));
}

/// Appending the same entry keeps two lookups that agree in agreement.
proof fn lemma_lookup_push_same(a: Seq<Entry>, b: Seq<Entry>, x: Entry, key: Seq<char>)
    requires
        lookup(a, key) == lookup(b, key),
    ensures
        lookup(a.push(x), key) == lookup(b.push(x), key),
{
    lemma_lookup_concat(a, seq![x], key);
    lemma_lookup_concat(b, seq![x], key);
    assert(a + seq![x] =~= a.push(x));
    assert(b + seq![x] =~= b.push(x));
}

/// The entry a card holds is under the card's keyword as a rewrite reads it.
proof fn lemma_entry_key(card: Seq<u8>)
    ensures
        classify(card) matches CardKind::Entry(k, _) ==> k == chunk_key(card),
        all_spaces(card) && card.len() == CARD ==> classify(card) is Skip,
{
    if all_spaces(card) && card.len() == CARD {
        let kb = card.take(8);
        assert forall|i: int| 0 <= i < kb.len() implies #[trigger] kb[i] < 0x80 by {
            assert(kb[i] == card[i]);
        }
        lemma_ascii_utf8(kb);
        let t = decode_utf8(kb);
        assert(t.len() == 8);
        assert forall|i: int| 0 <= i < t.len() implies is_ws(#[trigger] t[i]) by {
            assert(kb[i] == card[i]);
            assert(card[i] == 0x20u8);
            assert(t[i] == kb[i] as char);
        }
        lemma_trim_end_at(t, 0);
        assert(trim_end(t).len() == 0);
        reveal_strlit("END");
        assert(trim_end(t) != "END"@);
    }
}

/// A rewrite keeps every lookup under a keyword that no card it removes
/// reads an entry under.
proof fn lemma_kept_lookup(region: Seq<u8>, cards: Seq<CardParts>, drops: Seq<bool>, j: nat, key: Seq<char>)
    requires
        forall|m: int| 0 <= m < j && (all_spaces(chunk(region, m)) || displaced(cards, chunk_key(chunk(region, m))) || drops[m])
            ==> !(#[trigger] classify(chunk(region, m)) matches CardKind::Entry(k, _) && k == key),
    ensures
        lookup(read_images(kept_cards(region, cards, drops, j)), key) == lookup(read_images(region_cards(region, j as int)), key),
    decreases j,
{
    if j > 0 {
        lemma_kept_lookup(region, cards, drops, (j - 1) as nat, key);
        let c = chunk(region, j - 1);
        let prev = kept_cards(region, cards, drops, (j - 1) as nat);
        let all = region_cards(region, j as int);
        assert(all.drop_last() =~= region_cards(region, j - 1));
        assert(all.last() == c);
        if all_spaces(c) || displaced(cards, chunk_key(c)) || drops[j - 1] {
            match classify(c) {
                CardKind::Entry(k, v) => {
                    lemma_lookup_push_other(read_images(region_cards(region, j - 1)), (k, v), key);
                },
                _ => {},
            }
        } else {
            assert(prev.push(c).drop_last() =~= prev);
            match classify(c) {
                CardKind::Entry(k, v) => {
                    lemma_lookup_push_same(read_images(prev), read_images(region_cards(region, j - 1)), (k, v), key);
                },
                _ => {},
            }
        }
    }
}

/// Cards none of which holds an entry under `key` record nothing under it.
proof fn lemma_entries_lookup_none(cards: Seq<CardParts>, key: Seq<char>)
    requires
        forall|i: int| 0 <= i < cards.len() ==> !(#[trigger] classify(card_bytes(cards[i])) matches CardKind::Entry(k, _) && k == key),
    ensures
        lookup(read_entries(cards), key) is None,
    decreases cards.len(),
{
    if cards.len() > 0 {
        let init = cards.drop_last();
        assert forall|i: int| 0 <= i < init.len() implies !(#[trigger] classify(card_bytes(init[i])) matches CardKind::Entry(k, _) && k == key) by {
            assert(init[i] == cards[i]);
        }
        lemma_entries_lookup_none(init, key);
        assert(cards.last() == cards[cards.len() - 1]);
        match classify(card_bytes(cards.last())) {
            CardKind::Entry(k, v) => {
                lemma_lookup_push_other(read_entries(init), (k, v), key);
            },
            _ => {},
        }
    }
}

/// Entries that agree under every structural keyword describe data of the
/// same size and the same number of axes.
proof fn lemma_same_shape(a: Seq<Entry>, b: Seq<Entry>)
    requires
        forall|k: Seq<char>| structural_key(k) ==> lookup(a, k) == lookup(b, k),
    ensures
        data_bytes(a) == data_bytes(b),
        int_card(a, "NAXIS"@, 0) == int_card(b, "NAXIS"@, 0),
{
    assert(structural_key("BITPIX"@));
    assert(structural_key("NAXIS"@));
    assert(structural_key("PCOUNT"@));
    assert(structural_key("GCOUNT"@));
    let naxis = crate::fits::hdu::at_least(int_card(a, "NAXIS"@, 0), 0);
    if naxis > 0 {
        lemma_axes_product_same(a, b, naxis as nat);
    }
    assert(element_count(a) == element_count(b));
}

proof fn lemma_axes_product_same(a: Seq<Entry>, b: Seq<Entry>, n: nat)
    requires
        forall|k: Seq<char>| structural_key(k) ==> lookup(a, k) == lookup(b, k),
    ensures
        axes_product(a, n) == axes_product(b, n),
    decreases n,
{
    if n > 0 {
        lemma_axes_product_same(a, b, (n - 1) as nat);
        assert(structural_key(axis_key(n)));
    }
}

/// Which HDU holds the first image depends only on each HDU's NAXIS.
proof fn lemma_first_image_same(a: Seq<HduView>, b: Seq<HduView>, from: int)
    requires
        a.len() == b.len(),
        forall|i: int| 0 <= i < a.len() ==> int_card((#[trigger] a[i]).entries, "NAXIS"@, 0) == int_card(b[i].entries, "NAXIS"@, 0),
    ensures
        first_image(a, from) == first_image(b, from),
    decreases a.len() - from,
{
    if 0 <= from < a.len() {
        assert(int_card(a[from].entries, "NAXIS"@, 0) == int_card(b[from].entries, "NAXIS"@, 0));
        lemma_first_image_same(a, b, from + 1);
    }
}

/// Where a rewrite puts a new header over HDU `p` of `o`: `o1` agrees with
/// `o` before the header, holds a header there that reads as `e1` and
/// describes data of the same size, and holds `o`'s data and all that
/// follows it right after the new header.
pub open spec fn header_replaced(o: Seq<u8>, o1: Seq<u8>, h: HduView, e1: Seq<Entry>, new_end: int) -> bool {
    let start = header_start(h);
    let data = h.data_offset as int;
    &&& start + BLOCK <= new_end
    &&& (new_end - start) % (BLOCK as int) == 0
    &&& o1.len() - new_end == o.len() - data
    &&& forall|x: int| 0 <= x < start ==> #[trigger] o1[x] == o[x]
    &&& forall|x: int| data <= x < o.len() ==> #[trigger] o[x] == o1[x + (new_end - data)]
    &&& header_scan(o1, start, start, seq![]) == Ok::<(Seq<Entry>, int), crate::fits::FitsErrorView>((e1, new_end))
    &&& data_bytes(e1) == data_bytes(h.entries)
}

/// What a scan of `o1` from `off` finds, against one of `o` from there, when
/// HDU `p` of the latter had its header replaced.
pub open spec fn walk_matches(r: Seq<HduView>, r1: Seq<HduView>, p: int, e1: Seq<Entry>, new_end: int) -> bool {
    let h = r[p];
    &&& r1.len() == r.len()
    &&& forall|i: int| 0 <= i < p ==> #[trigger] r1[i] == r[i]
    &&& r1[p] == HduView {
        entries: e1,
        nblocks: ((new_end - header_start(h)) / (BLOCK as int)) as nat,
        data_offset: new_end as nat,
        data_len: h.data_len,
    }
    &&& forall|i: int| p < i < r.len() ==> #[trigger] r1[i] == shifted(r[i], new_end - h.data_offset)
}

/// Replacing the header of HDU `p` changes only that HDU: those before it
/// read as they did, it reads as its new entries with its data right after
/// the new header, and those after it read as they did, as far further on
/// as the header grew.
#[verifier::rlimit(40)]
#[verifier::spinoff_prover]
proof fn lemma_rewrite_walk(o: Seq<u8>, o1: Seq<u8>, off: int, acc: Seq<HduView>, p: int, e1: Seq<Entry>, new_end: int)
    requires
        hdu_scan(o, off, acc) is Ok,
        acc.len() <= p < hdu_scan(o, off, acc)->Ok_0.len(),
        0 <= off <= header_start(hdu_scan(o, off, acc)->Ok_0[p]),
        header_replaced(o, o1, hdu_scan(o, off, acc)->Ok_0[p], e1, new_end),
    ensures
        hdu_scan(o1, off, acc) is Ok,
        walk_matches(hdu_scan(o, off, acc)->Ok_0, hdu_scan(o1, off, acc)->Ok_0, p, e1, new_end),
    decreases o.len() - off,
{
    let r = hdu_scan(o, off, acc)->Ok_0;
    let h = r[p];
    let start = header_start(h);
    lemma_hdu_scan_starts(o, off, acc);
    if off < start {
        lemma_walk_before(o, o1, off, acc, p, e1, new_end);
        let (entries, end) = header_scan(o, off, off, seq![])->Ok_0;
        let dl = data_bytes(entries);
        let h0 = HduView { entries, nblocks: ((end - off) / (BLOCK as int)) as nat, data_offset: end as nat, data_len: dl as nat };
        let next = end + block_round(dl as nat);
        lemma_rewrite_walk(o, o1, next, acc.push(h0), p, e1, new_end);
    } else {
        lemma_walk_here(o, o1, off, acc, p, e1, new_end);
    }
}

/// One step of the scan before the replaced header: the HDU there reads the
/// same in both, and the scan goes on from the same place.
#[verifier::rlimit(40)]
#[verifier::spinoff_prover]
proof fn lemma_walk_before(o: Seq<u8>, o1: Seq<u8>, off: int, acc: Seq<HduView>, p: int, e1: Seq<Entry>, new_end: int)
    requires
        hdu_scan(o, off, acc) is Ok,
        acc.len() <= p < hdu_scan(o, off, acc)->Ok_0.len(),
        0 <= off < header_start(hdu_scan(o, off, acc)->Ok_0[p]),
        header_replaced(o, o1, hdu_scan(o, off, acc)->Ok_0[p], e1, new_end),
    ensures
        ({
            let (entries, end) = header_scan(o, off, off, seq![])->Ok_0;
            let dl = data_bytes(entries);
            let h0 = HduView { entries, nblocks: ((end - off) / (BLOCK as int)) as nat, data_offset: end as nat, data_len: dl as nat };
            let next = end + block_round(dl as nat);
            &&& header_scan(o, off, off, seq![]) is Ok
            &&& off < next
            &&& hdu_scan(o, next, acc.push(h0)) == hdu_scan(o, off, acc)
            &&& hdu_scan(o1, next, acc.push(h0)) == hdu_scan(o1, off, acc)
            &&& acc.push(h0).len() <= p
            &&& next <= header_start(hdu_scan(o, off, acc)->Ok_0[p])
        }),
{
    let r = hdu_scan(o, off, acc)->Ok_0;
    let h = r[p];
    let start = header_start(h);
    let data = h.data_offset as int;
    lemma_hdu_scan_starts(o, off, acc);
    let (entries, end) = header_scan(o, off, off, seq![])->Ok_0;
    lemma_header_scan_end(o, off, off, seq![]);
    let dl = data_bytes(entries);
    lemma_elements_nonneg(entries);
    let h0 = HduView { entries, nblocks: ((end - off) / (BLOCK as int)) as nat, data_offset: end as nat, data_len: dl as nat };
    lemma_block_round(dl as nat);
    let next = end + block_round(dl as nat);
    assert(p != acc.len());
    assert(!(next <= off || next >= o.len())) by {
        if next <= off || next >= o.len() {
            assert(r =~= acc.push(h0));
        }
    }
    assert(r == hdu_scan(o, next, acc.push(h0))->Ok_0);
    lemma_hdu_scan_starts(o, next, acc.push(h0));
    assert(header_start(r[p]) >= next) by {
        if p > acc.len() + 1 {
        }
    }
    assert(dl >= 0) by (nonlinear_arith)
        requires
            dl == (crate::fits::hdu::abs(int_card(entries, "BITPIX"@, 8)) / 8) * crate::fits::hdu::at_least(int_card(entries, "GCOUNT"@, 1), 1)
                * (element_count(entries) + crate::fits::hdu::at_least(int_card(entries, "PCOUNT"@, 0), 0)),
            element_count(entries) >= 0,
            crate::fits::hdu::abs(int_card(entries, "BITPIX"@, 8)) >= 0,
            crate::fits::hdu::at_least(int_card(entries, "GCOUNT"@, 1), 1) >= 1,
            crate::fits::hdu::at_least(int_card(entries, "PCOUNT"@, 0), 0) >= 0,
    {
    }
    assert forall|x: int| off <= x < end implies #[trigger] o[x] == o1[x + (off - off)] by {
        assert(o1[x] == o[x]);
    }
    lemma_header_scan_shift(o, off, off, o1, off, off, seq![]);
    assert(end + dl <= o1.len());
}

/// The step of the scan at the replaced header: the new header reads, and
/// the rest reads as before, further on.
#[verifier::rlimit(40)]
#[verifier::spinoff_prover]
proof fn lemma_walk_here(o: Seq<u8>, o1: Seq<u8>, off: int, acc: Seq<HduView>, p: int, e1: Seq<Entry>, new_end: int)
    requires
        hdu_scan(o, off, acc) is Ok,
        acc.len() <= p < hdu_scan(o, off, acc)->Ok_0.len(),
        0 <= off == header_start(hdu_scan(o, off, acc)->Ok_0[p]),
        header_replaced(o, o1, hdu_scan(o, off, acc)->Ok_0[p], e1, new_end),
    ensures
        hdu_scan(o1, off, acc) is Ok,
        walk_matches(hdu_scan(o, off, acc)->Ok_0, hdu_scan(o1, off, acc)->Ok_0, p, e1, new_end),
{
    let r = hdu_scan(o, off, acc)->Ok_0;
    let h = r[p];
    let start = header_start(h);
    let data = h.data_offset as int;
    let d = new_end - data;
    lemma_hdu_scan_starts(o, off, acc);
    let (entries, end) = header_scan(o, off, off, seq![])->Ok_0;
    lemma_header_scan_end(o, off, off, seq![]);
    let dl = data_bytes(entries);
    let h0 = HduView { entries, nblocks: ((end - off) / (BLOCK as int)) as nat, data_offset: end as nat, data_len: dl as nat };
    lemma_block_round(dl as nat);
    let next = end + block_round(dl as nat);
    assert(p == acc.len()) by {
        if p > acc.len() {
            assert(header_start(r[p]) >= off + BLOCK);
        }
    }
    assert(r[p] == h0) by {
        if next <= off || next >= o.len() {
            assert(r =~= acc.push(h0));
        } else {
            lemma_hdu_scan_starts(o, next, acc.push(h0));
            assert(r.take(acc.len() + 1int) == acc.push(h0));
            assert(r[acc.len() as int] == acc.push(h0)[acc.len() as int]);
        }
    }
    assert(dl >= 0);
    let h1 = HduView { entries: e1, nblocks: ((new_end - start) / (BLOCK as int)) as nat, data_offset: new_end as nat, data_len: dl as nat };
    let next1 = new_end + block_round(dl as nat);
    assert(new_end + dl <= o1.len());
    if next <= off || next >= o.len() {
        assert(hdu_scan(o1, off, acc)->Ok_0 =~= acc.push(h1));
        assert(r =~= acc.push(h0));
    } else {
        assert forall|x: int| next <= x < o.len() implies #[trigger] o[x] == o1[x + (next1 - next)] by {}
        lemma_hdu_scan_shift(o1, next1, acc.push(h1), o, next, acc.push(h0));
        lemma_hdu_scan_starts(o1, next1, acc.push(h1));
        lemma_hdu_scan_starts(o, next, acc.push(h0));
        let r1 = hdu_scan(o1, off, acc)->Ok_0;
        assert(r1 == hdu_scan(o1, next1, acc.push(h1))->Ok_0);
        assert(r1.take(acc.len() + 1int) == acc.push(h1));
        assert(r.take(acc.len() + 1int) == acc.push(h0));
        assert forall|i: int| 0 <= i < p implies #[trigger] r1[i] == r[i] by {
            assert(r1[i] == r1.take(acc.len() + 1int)[i]);
            assert(r[i] == r.take(acc.len() + 1int)[i]);
        }
        assert(r1[p] == r1.take(acc.len() + 1int)[p]);
    }
}

/// `drop` answers each keyword one way, however often it is asked.
pub open spec fn answers_once<F: Fn(&str) -> bool>(drop: F) -> bool {
    forall|k1: &str, k2: &str, b1: bool, b2: bool|
        k1@ == k2@ && #[trigger] drop.ensures((k1,), b1) && #[trigger] drop.ensures((k2,), b2) ==> b1 == b2
}

/// Each card a rewrite keeps is one of the region's cards, neither blank
/// nor redefined nor dropped.
proof fn lemma_kept_origin(region: Seq<u8>, cards: Seq<CardParts>, drops: Seq<bool>, j: nat)
    ensures
        forall|t: int| #![trigger kept_cards(region, cards, drops, j)[t]] 0 <= t < kept_cards(region, cards, drops, j).len() ==> exists|m: int|
            0 <= m < j && kept_cards(region, cards, drops, j)[t] == #[trigger] chunk(region, m)
                && !all_spaces(chunk(region, m)) && !displaced(cards, chunk_key(chunk(region, m))) && !drops[m],
    decreases j,
{
    if j > 0 {
        lemma_kept_origin(region, cards, drops, (j - 1) as nat);
        let prev = kept_cards(region, cards, drops, (j - 1) as nat);
        let now = kept_cards(region, cards, drops, j);
        assert forall|t: int| #![trigger now[t]] 0 <= t < now.len() implies exists|m: int|
            0 <= m < j && now[t] == #[trigger] chunk(region, m)
                && !all_spaces(chunk(region, m)) && !displaced(cards, chunk_key(chunk(region, m))) && !drops[m] by {
            if t < prev.len() {
                assert(now[t] == prev[t]);
                let m = choose|m: int| 0 <= m < j - 1 && prev[t] == #[trigger] chunk(region, m)
                    && !all_spaces(chunk(region, m)) && !displaced(cards, chunk_key(chunk(region, m))) && !drops[m];
                assert(now[t] == chunk(region, m));
            } else {
                assert(now[t] == chunk(region, j - 1));
            }
        }
    }
}

/// Rewriting a header a rewrite wrote, keeping every card it kept: the
/// kept cards stay, and the new cards, which redefine their own keywords,
/// go.
proof fn lemma_second_pass(region: Seq<u8>, cards: Seq<CardParts>, drops: Seq<bool>, kept: Seq<Seq<u8>>, j: nat)
    requires
        j <= kept.len() + cards.len(),
        forall|t: int| 0 <= t < kept.len() ==> {
            &&& #[trigger] chunk(region, t) == kept[t]
            &&& !all_spaces(kept[t])
            &&& !displaced(cards, chunk_key(kept[t]))
            &&& !drops[t]
        },
        forall|t: int| kept.len() <= t < kept.len() + cards.len() ==> displaced(cards, chunk_key(#[trigger] chunk(region, t))),
    ensures
        j <= kept.len() ==> kept_cards(region, cards, drops, j) == kept.take(j as int),
        j >= kept.len() ==> kept_cards(region, cards, drops, j) == kept,
    decreases j,
{
    if j > 0 {
        lemma_second_pass(region, cards, drops, kept, (j - 1) as nat);
        if j <= kept.len() {
            assert(chunk(region, j - 1) == kept[j - 1]);
            assert(kept.take(j as int) =~= kept.take(j - 1).push(kept[j - 1]));
        } else {
            assert(displaced(cards, chunk_key(chunk(region, j - 1))));
            if j - 1 == kept.len() {
                assert(kept.take(kept.len() as int) =~= kept);
            }
        }
    } else {
        assert(kept.take(0) =~= Seq::<Seq<u8>>::empty());
    }
}

/// Rewriting, with the same cards, the header region a rewrite wrote gives
/// the same file back, and that is all such a rewrite can give, when each
/// new card holds a value under a plain keyword and `drop` answers each
/// keyword one way.
#[verifier::rlimit(80)]
#[verifier::spinoff_prover]
proof fn lemma_rewrite_fixed<F: Fn(&str) -> bool>(drop: F, original: Seq<u8>, start: int, data: int, cards: Seq<CardParts>, drops: Seq<bool>)
    requires
        0 <= start,
        header_scan(original, start, start, seq![]) is Ok,
        header_scan(original, start, start, seq![])->Ok_0.1 == data,
        forall|i: int| 0 <= i < cards.len() ==> card_keyword((#[trigger] cards[i]).0) && cards[i].1 is Some,
        (data - start) + (cards.len() + 1) * CARD <= header_limit(),
        answers_of(drop, original.subrange(start, data), cards, ((data - start) / (CARD as int)) as nat, drops),
        answers_once(drop),
    ensures
        ({
            let region = original.subrange(start, data);
            let n = ((data - start) / (CARD as int)) as nat;
            let kept = kept_cards(region, cards, drops, first_end(region, n, 0));
            let out = rewritten(original, start, data, cards, drops);
            let new_end = start + block_round(((kept.len() + cards.len() + 1) * CARD) as nat);
            &&& rewrite_of(drop, out, cards, start, new_end, out)
            &&& forall|again: Seq<u8>| rewrite_of(drop, out, cards, start, new_end, again) ==> again == out
        }),
{
    assert forall|j: int| 0 <= j < cards.len() implies !(#[trigger] classify(card_bytes(cards[j])) is End) by {
        lemma_keyed_card(cards[j]);
    }
    lemma_rewrite_layout(original, start, data, cards, drops);
    lemma_header_scan_end(original, start, start, seq![]);
    let region = original.subrange(start, data);
    let n = ((data - start) / (CARD as int)) as nat;
    let e = first_end(region, n, 0);
    let kept = kept_cards(region, cards, drops, e);
    let news = images_of(cards);
    lemma_images_of(cards);
    let imgs = kept + news;
    let out = rewritten(original, start, data, cards, drops);
    let total = ((kept.len() + cards.len() + 1) * CARD) as nat;
    let new_end = start + block_round(total);
    let region1 = out.subrange(start, new_end);
    let n1 = ((new_end - start) / (CARD as int)) as nat;
    let kk = kept.len() as int;
    let cc = cards.len() as int;
    lemma_block_round(total);
    assert(n1 * CARD == new_end - start && n1 >= kk + cc + 1) by (nonlinear_arith)
        requires
            n1 == (new_end - start) / (CARD as int),
            (new_end - start) % (BLOCK as int) == 0,
            new_end - start >= total,
            total == (kk + cc + 1) * CARD,
            BLOCK == 2880,
            CARD == 80,
    ;
    // The cards of the new header region.
    assert forall|t: int| 0 <= t <= kk + cc implies #[trigger] chunk(region1, t) == (if t < imgs.len() { imgs[t] } else { end_card() }) by {
        assert(t * CARD + CARD <= n1 * CARD) by (nonlinear_arith)
            requires
                0 <= t <= kk + cc,
                n1 >= kk + cc + 1,
        ;
        assert forall|x: int| 0 <= x < CARD implies #[trigger] chunk(region1, t)[x] == card_at(out, start + t * CARD)[x] by {
            assert(chunk(region1, t)[x] == region1[t * CARD + x]);
            assert(region1[t * CARD + x] == out[start + t * CARD + x]);
        }
        assert(chunk(region1, t) =~= card_at(out, start + t * CARD));
        lemma_held_card(out, start, imgs, t);
    }
    lemma_end_card_ends();
    lemma_ends_header_kind(end_card());
    assert(chunk(region1, kk + cc) == end_card());
    assert forall|t: int| 0 <= t < kk + cc implies !ends_header(#[trigger] chunk(region1, t)) by {
        assert(chunk(region1, t) == imgs[t]);
        lemma_ends_header_kind(imgs[t]);
    }
    lemma_first_end_at(region1, n1, 0, (kk + cc) as nat);
    // Where the kept cards came from, and what `drop` said of them.
    lemma_kept_origin(region, cards, drops, e);
    assert forall|t: int| 0 <= t < kk implies answered(drop, chunk_key(#[trigger] kept[t]), false) && !all_spaces(kept[t]) && !displaced(cards, chunk_key(kept[t])) by {
        let m = choose|m: int| 0 <= m < e && kept[t] == #[trigger] chunk(region, m)
            && !all_spaces(chunk(region, m)) && !displaced(cards, chunk_key(chunk(region, m))) && !drops[m];
        assert(asked(region, cards, m));
    }
    assert forall|t: int| kk <= t < kk + cc implies displaced(cards, chunk_key(#[trigger] chunk(region1, t))) by {
        assert(chunk(region1, t) == imgs[t]);
        assert(imgs[t] == news[t - kk]);
        assert(news[t - kk] == card_bytes(cards[t - kk]));
        lemma_keyed_card(cards[t - kk]);
        assert(cards[t - kk].1 is Some && cards[t - kk].0 == chunk_key(chunk(region1, t)));
    }
    assert forall|t: int| 0 <= t < kk + cc implies {
        &&& (#[trigger] chunk(region1, t)).len() == CARD
        &&& !(classify(chunk(region1, t)) is End)
        &&& !(classify(chunk(region1, t)) is Bad)
    } by {
        assert(chunk(region1, t) == imgs[t]);
    }
    // Any answers that keep the kept cards rewrite to `out`.
    assert forall|drops2: Seq<bool>| (forall|t: int| 0 <= t < kk ==> !(#[trigger] drops2[t]))
        implies rewritten(out, start, new_end, cards, drops2) == out by {
        assert forall|t: int| 0 <= t < kk implies {
            &&& #[trigger] chunk(region1, t) == kept[t]
            &&& !all_spaces(kept[t])
            &&& !displaced(cards, chunk_key(kept[t]))
            &&& !drops2[t]
        } by {
            assert(chunk(region1, t) == imgs[t]);
        }
        lemma_second_pass(region1, cards, drops2, kept, (kk + cc) as nat);
        lemma_kept_cards(region1, cards, drops2, (kk + cc) as nat);
        assert(kept_upto(region1, cards, drops2, (kk + cc) as nat) == kept_upto(region, cards, drops, e));
        assert(out.take(start) =~= original.take(start));
        assert forall|x: int| 0 <= x < out.skip(new_end).len() implies #[trigger] out.skip(new_end)[x] == original.skip(data)[x] by {
            assert(original[data + x] == out[data + x + (new_end - data)]);
        }
        assert(out.skip(new_end) =~= original.skip(data));
        assert(rewritten(out, start, new_end, cards, drops2) =~= out);
    }
    // `drop` may keep them all.
    let keep_all = Seq::new(n1, |t: int| false);
    assert(answers_of(drop, region1, cards, n1, keep_all)) by {
        assert forall|t: int| 0 <= t < first_end(region1, n1, 0) && asked(region1, cards, t)
            implies answered(drop, chunk_key(chunk(region1, t)), #[trigger] keep_all[t]) by {
            if t >= kk {
                assert(displaced(cards, chunk_key(chunk(region1, t))));
            } else {
                assert(chunk(region1, t) == kept[t]);
            }
        }
    }
    assert(rewritten(out, start, new_end, cards, keep_all) == out);
    // And it keeps them all whatever it is asked.
    assert forall|again: Seq<u8>| rewrite_of(drop, out, cards, start, new_end, again) implies again == out by {
        let drops2 = choose|drops2: Seq<bool>| #[trigger] answers_of(drop, out.subrange(start, new_end), cards, ((new_end - start) / (CARD as int)) as nat, drops2)
            && again == rewritten(out, start, new_end, cards, drops2);
        assert forall|t: int| 0 <= t < kk implies !(#[trigger] drops2[t]) by {
            assert(chunk(region1, t) == kept[t]);
            assert(asked(region1, cards, t));
            assert(answered(drop, chunk_key(kept[t]), drops2[t]));
            assert(answered(drop, chunk_key(kept[t]), false));
            let k1 = choose|k: &str| k@ == chunk_key(kept[t]) && #[trigger] drop.ensures((k,), drops2[t]);
            let k2 = choose|k: &str| k@ == chunk_key(kept[t]) && #[trigger] drop.ensures((k,), false);
            assert(drop.ensures((k1,), drops2[t]) && drop.ensures((k2,), false));
        }
    }
}

/// `drop` never drops a structural keyword.
pub open spec fn keeps_structure<F: Fn(&str) -> bool>(drop: F) -> bool {
    forall|k: &str| structural_key(k@) ==> !#[trigger] drop.ensures((k,), true)
}

/// A rewrite with new cards under other keywords, that drops no structural
/// keyword, leaves the header describing the same data.
#[verifier::rlimit(60)]
#[verifier::spinoff_prover]
proof fn lemma_rewrite_same_shape<F: Fn(&str) -> bool>(drop: F, original: Seq<u8>, start: int, data: int, cards: Seq<CardParts>, drops: Seq<bool>)
    requires
        0 <= start,
        header_scan(original, start, start, seq![]) is Ok,
        header_scan(original, start, start, seq![])->Ok_0.1 == data,
        forall|i: int| 0 <= i < cards.len() ==> card_keyword((#[trigger] cards[i]).0) && cards[i].1 is Some && !structural_key(cards[i].0),
        (data - start) + (cards.len() + 1) * CARD <= header_limit(),
        answers_of(drop, original.subrange(start, data), cards, ((data - start) / (CARD as int)) as nat, drops),
        keeps_structure(drop),
    ensures
        ({
            let region = original.subrange(start, data);
            let n = ((data - start) / (CARD as int)) as nat;
            let kept = kept_cards(region, cards, drops, first_end(region, n, 0));
            let e1 = read_images(kept) + read_entries(cards);
            let e0 = header_scan(original, start, start, seq![])->Ok_0.0;
            &&& data_bytes(e1) == data_bytes(e0)
            &&& int_card(e1, "NAXIS"@, 0) == int_card(e0, "NAXIS"@, 0)
        }),
{
    assert forall|j: int| 0 <= j < cards.len() implies !(#[trigger] classify(card_bytes(cards[j])) is End) by {
        lemma_keyed_card(cards[j]);
    }
    lemma_rewrite_layout(original, start, data, cards, drops);
    let region = original.subrange(start, data);
    let n = ((data - start) / (CARD as int)) as nat;
    let e = first_end(region, n, 0);
    let kept = kept_cards(region, cards, drops, e);
    let e1 = read_images(kept) + read_entries(cards);
    let e0 = header_scan(original, start, start, seq![])->Ok_0.0;
    assert forall|k: Seq<char>| structural_key(k) implies lookup(e1, k) == lookup(e0, k) by {
        assert forall|m: int| 0 <= m < e && (all_spaces(chunk(region, m)) || displaced(cards, chunk_key(chunk(region, m))) || drops[m])
            implies !(#[trigger] classify(chunk(region, m)) matches CardKind::Entry(k2, _) && k2 == k) by {
            let c = chunk(region, m);
            lemma_entry_key(c);
            if classify(c) matches CardKind::Entry(k2, _) && k2 == k {
                assert(c.len() == CARD);
                if all_spaces(c) {
                } else if displaced(cards, chunk_key(c)) {
                    let i = choose|i: int| 0 <= i < cards.len() && (#[trigger] cards[i]).1 is Some && cards[i].0 == chunk_key(c);
                    assert(!structural_key(cards[i].0));
                } else {
                    assert(asked(region, cards, m));
                    assert(answered(drop, chunk_key(c), drops[m]));
                    let ks = choose|ks: &str| ks@ == chunk_key(c) && #[trigger] drop.ensures((ks,), drops[m]);
                    assert(structural_key(ks@));
                    assert(!drop.ensures((ks,), true));
                }
            }
        }
        lemma_kept_lookup(region, cards, drops, e, k);
        lemma_lookup_concat(read_images(kept), read_entries(cards), k);
        assert forall|i: int| 0 <= i < cards.len() implies !(#[trigger] classify(card_bytes(cards[i])) matches CardKind::Entry(k2, _) && k2 == k) by {
            lemma_keyed_card(cards[i]);
        }
        lemma_entries_lookup_none(cards, k);
    }
    lemma_same_shape(e1, e0);
}

/// A header's first card is kept by every rewrite that keeps it, so it
/// stays first.
proof fn lemma_first_kept(region: Seq<u8>, cards: Seq<CardParts>, drops: Seq<bool>, j: nat)
    requires
        j >= 1,
        !(all_spaces(chunk(region, 0)) || displaced(cards, chunk_key(chunk(region, 0))) || drops[0]),
    ensures
        kept_cards(region, cards, drops, j).len() >= 1,
        kept_cards(region, cards, drops, j)[0] == chunk(region, 0),
    decreases j,
{
    if j > 1 {
        lemma_first_kept(region, cards, drops, (j - 1) as nat);
    } else {
        assert(kept_cards(region, cards, drops, 0) =~= Seq::<Seq<u8>>::empty());
    }
}

/// The keyword of a card that opens a FITS file.
proof fn lemma_simple_key(card: Seq<u8>)
    requires
        card.len() == CARD,
        card.take(9) == simple_magic(),
    ensures
        chunk_key(card) == "SIMPLE"@,
        !all_spaces(card),
        !ends_header(card),
{
    reveal_strlit("SIMPLE");
    reveal_strlit("END");
    let kb = card.take(8);
    assert forall|i: int| 0 <= i < 8 implies #[trigger] kb[i] == simple_magic()[i] by {
        assert(kb[i] == card.take(9)[i]);
    }
    assert forall|i: int| 0 <= i < kb.len() implies #[trigger] kb[i] < 0x80 by {}
    lemma_ascii_utf8(kb);
    let t = decode_utf8(kb);
    assert(t =~= seq!['S', 'I', 'M', 'P', 'L', 'E', ' ', ' ']);
    lemma_trim_end_at(t, 6);
    assert(trim_end(t) =~= "SIMPLE"@);
    assert(card[0] == 0x53u8);
}

/// When the rewritten header opens the file, the file still opens as FITS.
#[verifier::rlimit(40)]
proof fn lemma_rewrite_magic<F: Fn(&str) -> bool>(drop: F, original: Seq<u8>, data: int, cards: Seq<CardParts>, drops: Seq<bool>)
    requires
        original.len() >= BLOCK,
        original.take(9) == simple_magic(),
        header_scan(original, 0, 0, seq![]) is Ok,
        header_scan(original, 0, 0, seq![])->Ok_0.1 == data,
        forall|i: int| 0 <= i < cards.len() ==> card_keyword((#[trigger] cards[i]).0) && cards[i].1 is Some && !structural_key(cards[i].0),
        data + (cards.len() + 1) * CARD <= header_limit(),
        answers_of(drop, original.subrange(0, data), cards, (data / (CARD as int)) as nat, drops),
        keeps_structure(drop),
    ensures
        rewritten(original, 0, data, cards, drops).take(9) == simple_magic(),
{
    assert forall|j: int| 0 <= j < cards.len() implies !(#[trigger] classify(card_bytes(cards[j])) is End) by {
        lemma_keyed_card(cards[j]);
    }
    lemma_rewrite_layout(original, 0, data, cards, drops);
    lemma_header_scan_end(original, 0, 0, seq![]);
    let region = original.subrange(0, data);
    let n = (data / (CARD as int)) as nat;
    let e = first_end(region, n, 0);
    let kept = kept_cards(region, cards, drops, e);
    let imgs = kept + images_of(cards);
    let out = rewritten(original, 0, data, cards, drops);
    let c0 = chunk(region, 0);
    assert(c0 == card_at(original, 0));
    assert(c0.take(9) =~= original.take(9));
    lemma_simple_key(c0);
    assert(e >= 1) by {
        assert(n >= 1);
        lemma_first_end_ge(region, n, 1);
        assert(first_end(region, n, 0) == first_end(region, n, 1));
    }
    assert(!displaced(cards, chunk_key(c0))) by {
        if displaced(cards, chunk_key(c0)) {
            let i = choose|i: int| 0 <= i < cards.len() && (#[trigger] cards[i]).1 is Some && cards[i].0 == chunk_key(c0);
            assert(!structural_key(cards[i].0));
        }
    }
    assert(!drops[0]) by {
        assert(asked(region, cards, 0));
        assert(answered(drop, chunk_key(c0), drops[0]));
        let ks = choose|ks: &str| ks@ == chunk_key(c0) && #[trigger] drop.ensures((ks,), drops[0]);
        assert(structural_key(ks@));
    }
    lemma_first_kept(region, cards, drops, e);
    lemma_held_card(out, 0, imgs, 0);
    assert(imgs[0] == kept[0]);
    assert(card_at(out, 0) == c0);
    assert forall|i: int| 0 <= i < 9 implies #[trigger] out.take(9)[i] == simple_magic()[i] by {
        assert(out.take(9)[i] == card_at(out, 0)[i]);
        assert(c0[i] == original.take(9)[i]);
    }
    assert(out.take(9) =~= simple_magic());
}

/// Which HDU `first_image` picks lies in the file, when there is one.
proof fn lemma_first_image_bound(hdus: Seq<HduView>, from: int)
    requires
        hdus.len() > 0,
    ensures
        0 <= first_image(hdus, from) < hdus.len(),
    decreases hdus.len() - from,
{
    if 0 <= from < hdus.len() && int_card(hdus[from].entries, "NAXIS"@, 0) < 2 {
        lemma_first_image_bound(hdus, from + 1);
    }
}

proof fn lemma_first_end_ge(region: Seq<u8>, n: nat, j: nat)
    requires
        j <= n,
    ensures
        first_end(region, n, j) >= j,
    decreases n - j,
{
    if j < n && !ends_header(chunk(region, j as int)) {
        lemma_first_end_ge(region, n, j + 1);
    }
}

/// Setting the same cards again changes nothing: a file that `set_cards`
/// rewrote with `cards` is what rewriting it once more with `cards` gives,
/// and all it can give. This holds when each card holds a value under a
/// keyword of 1 to 8 printable ASCII characters without a space (COMMENT
/// and HISTORY among them) that is none of SIMPLE, BITPIX, NAXIS, NAXISn,
/// PCOUNT and GCOUNT; when `drop` answers each keyword one way and never
/// drops one of those; and up to the longest header the reader accepts.
/// (A card with no value would be added again each time.)
#[verifier::rlimit(80)]
#[verifier::spinoff_prover]
pub proof fn lemma_set_cards_again<F: Fn(&str) -> bool>(drop: F, original: Seq<u8>, cards: Seq<CardParts>, out: Seq<u8>)
    requires
        set_cards_output(drop, original, cards, out),
        forall|i: int| 0 <= i < cards.len() ==> card_keyword((#[trigger] cards[i]).0) && cards[i].1 is Some && !structural_key(cards[i].0),
        answers_once(drop),
        keeps_structure(drop),
        fits_spec(original) matches Ok(hdus) && hdus[first_image(hdus, 0)].nblocks * BLOCK + (cards.len() + 1) * CARD <= header_limit(),
    ensures
        set_cards_output(drop, out, cards, out),
        forall|again: Seq<u8>| set_cards_output(drop, out, cards, again) ==> again == out,
{
    let hdus = fits_spec(original)->Ok_0;
    assert(original.len() >= BLOCK && original.take(9) == simple_magic());
    assert(hdu_scan(original, 0, seq![]) == Ok::<Seq<HduView>, crate::fits::FitsErrorView>(hdus));
    lemma_hdu_scan_starts(original, 0, seq![]);
    lemma_first_image_bound(hdus, 0);
    let p = first_image(hdus, 0);
    let h = hdus[p];
    let start = header_start(h);
    let data = h.data_offset as int;
    assert(start == 0 || start >= BLOCK) by {
        if p > 0 {
            assert(header_start(hdus[p]) >= 0 + BLOCK);
        }
    }
    assert(header_scan(original, start, start, seq![]) == Ok::<(Seq<Entry>, int), crate::fits::FitsErrorView>((h.entries, data)));
    let region = original.subrange(start, data);
    let n = ((data - start) / (CARD as int)) as nat;
    assert(rewrite_of(drop, original, cards, start, data, out));
    let drops = choose|drops: Seq<bool>| #[trigger] answers_of(drop, region, cards, n, drops) && out == rewritten(original, start, data, cards, drops);
    assert(data - start == h.nblocks * BLOCK);
    assert forall|j: int| 0 <= j < cards.len() implies !(#[trigger] classify(card_bytes(cards[j])) is End) by {
        lemma_keyed_card(cards[j]);
    }
    lemma_rewrite_layout(original, start, data, cards, drops);
    lemma_rewrite_same_shape(drop, original, start, data, cards, drops);
    let e = first_end(region, n, 0);
    let kept = kept_cards(region, cards, drops, e);
    let e1 = read_images(kept) + read_entries(cards);
    let new_end = start + block_round(((kept.len() + cards.len() + 1) * CARD) as nat);
    assert(header_replaced(original, out, h, e1, new_end));
    lemma_rewrite_walk(original, out, 0, seq![], p, e1, new_end);
    let r1 = hdu_scan(out, 0, seq![])->Ok_0;
    assert(out.take(9) == simple_magic()) by {
        if start == 0 {
            lemma_rewrite_magic(drop, original, data, cards, drops);
        } else {
            assert forall|i: int| 0 <= i < 9 implies #[trigger] out.take(9)[i] == original.take(9)[i] by {
                assert(out[i] == original[i]);
            }
            assert(out.take(9) =~= original.take(9));
        }
    }
    assert(fits_spec(out) == Ok::<Seq<HduView>, crate::fits::FitsErrorView>(r1));
    assert forall|i: int| 0 <= i < r1.len() implies int_card((#[trigger] r1[i]).entries, "NAXIS"@, 0) == int_card(hdus[i].entries, "NAXIS"@, 0) by {
        if i < p {
        } else if i == p {
        } else {
            assert(r1[i] == shifted(hdus[i], new_end - h.data_offset));
        }
    }
    lemma_first_image_same(r1, hdus, 0);
    let h1 = r1[p];
    assert(header_start(h1) == start) by (nonlinear_arith)
        requires
            h1.nblocks == (new_end - start) / (BLOCK as int),
            h1.data_offset == new_end,
            (new_end - start) % (BLOCK as int) == 0,
            start + BLOCK <= new_end,
            BLOCK == 2880,
    ;
    lemma_rewrite_fixed(drop, original, start, data, cards, drops);
}

/// The text of a number in scientific notation: an optional sign, digits,
/// a point and more digits, `e` or `E`, an optional sign, then digits.
pub open spec fn scientific(lead: Seq<char>, a: Seq<char>, b: Seq<char>, el: char, sg: Seq<char>, x: Seq<char>) -> Seq<char> {
    lead + a + seq!['.'] + b + seq![el] + sg + x
}

/// What a sign before a number may be: none, `+` or `-`.
pub open spec fn optional_sign(s: Seq<char>) -> bool {
    s == Seq::<char>::empty() || s == seq!['-'] || s == seq!['+']
}

/// Decimal digits, each an ASCII digit.
pub open spec fn decimal(d: Seq<char>) -> bool {
    forall|i: int| 0 <= i < d.len() ==> '0' <= #[trigger] d[i] <= '9'
}

proof fn lemma_decimal_digits(d: Seq<char>)
    requires
        decimal(d),
    ensures
        all_digits(d),
        forall|i: int| 0 <= i < d.len() ==> #[trigger] d[i] != 'e' && d[i] != '.' && d[i] != '+' && d[i] != '-' && ascii_lower(d[i]) == d[i],
{
    assert forall|i: int| 0 <= i < d.len() implies is_ascii_digit(#[trigger] d[i]) by {}
}

proof fn lemma_scientific_lower(a: Seq<char>, b: Seq<char>, el: char, sg: Seq<char>, x: Seq<char>)
    requires
        decimal(a),
        decimal(b),
        el == 'e' || el == 'E',
        optional_sign(sg),
        decimal(x),
    ensures
        lower(a + seq!['.'] + b + seq![el] + sg + x) == a + seq!['.'] + b + seq!['e'] + sg + x,
{
    lemma_decimal_digits(a);
    lemma_decimal_digits(b);
    lemma_decimal_digits(x);
    let w = a + seq!['.'] + b + seq![el] + sg + x;
    let l = a + seq!['.'] + b + seq!['e'] + sg + x;
    let la = a.len() as int;
    let lb = b.len() as int;
    assert forall|i: int| 0 <= i < w.len() implies #[trigger] lower(w)[i] == l[i] by {
        if i < la {
            assert(w[i] == a[i] && l[i] == a[i]);
        } else if i == la {
        } else if i < la + 1 + lb {
            assert(w[i] == b[i - la - 1] && l[i] == b[i - la - 1]);
        } else if i == la + 1 + lb {
            assert(ascii_lower('E') == 'e');
        } else if i < la + 2 + lb + sg.len() {
            assert(w[i] == sg[i - la - 2 - lb] && l[i] == sg[i - la - 2 - lb]);
        } else {
            assert(w[i] == x[i - la - 2 - lb - sg.len()] && l[i] == x[i - la - 2 - lb - sg.len()]);
        }
    }
    assert(lower(w) =~= l);
}

proof fn lemma_scientific_number(a: Seq<char>, b: Seq<char>, sg: Seq<char>, x: Seq<char>)
    requires
        a.len() > 0,
        decimal(a),
        decimal(b),
        optional_sign(sg),
        x.len() > 0,
        decimal(x),
    ensures
        number_ok(a + seq!['.'] + b + seq!['e'] + sg + x),
{
    lemma_decimal_digits(a);
    lemma_decimal_digits(b);
    lemma_decimal_digits(x);
    let la = a.len() as int;
    let lb = b.len() as int;
    let m = a + seq!['.'] + b;
    let t = sg + x;
    let l = a + seq!['.'] + b + seq!['e'] + sg + x;
    assert(l =~= m + seq!['e'] + t);
    assert forall|i: int| 0 <= i < la + 1 + lb implies #[trigger] l[i] != 'e' by {
        if i < la {
            assert(l[i] == a[i]);
        } else if i > la {
            assert(l[i] == b[i - la - 1]);
        }
    }
    lemma_find_at(l, 'e', la + 1 + lb);
    assert(l.take(la + 1 + lb) =~= m);
    assert forall|i: int| 0 <= i < la implies #[trigger] m[i] != '.' by {
        assert(m[i] == a[i]);
    }
    lemma_find_at(m, '.', la);
    assert(m.take(la) =~= a);
    assert(m.skip(la + 1) =~= b);
    assert(mantissa_ok(m));
    assert(l.skip(la + 2 + lb) =~= t);
    assert(sign_len(t) == sg.len()) by {
        if sg.len() == 0 {
            assert(t[0] == x[0]);
        } else {
            assert(t[0] == sg[0]);
        }
    }
    assert(t.skip(sg.len() as int) =~= x);
    assert(exponent_ok(t));
}

proof fn lemma_scientific_text(lead: Seq<char>, a: Seq<char>, b: Seq<char>, el: char, sg: Seq<char>, x: Seq<char>)
    requires
        optional_sign(lead),
        a.len() > 0,
        decimal(a),
        decimal(b),
        el == 'e' || el == 'E',
        optional_sign(sg),
        x.len() > 0,
        decimal(x),
    ensures
        is_float_text(scientific(lead, a, b, el, sg, x)),
        parse_i64_spec(scientific(lead, a, b, el, sg, x)) is None,
{
    lemma_decimal_digits(a);
    let v = scientific(lead, a, b, el, sg, x);
    let w = a + seq!['.'] + b + seq![el] + sg + x;
    assert(v =~= lead + w);
    assert(sign_len(v) == lead.len()) by {
        if lead.len() == 0 {
            assert(v[0] == a[0]);
        } else {
            assert(v[0] == lead[0]);
        }
    }
    assert(v.skip(sign_len(v) as int) =~= w);
    assert(w[a.len() as int] == '.');
    assert(!all_digits(w));
    lemma_scientific_lower(a, b, el, sg, x);
    lemma_scientific_number(a, b, sg, x);
}

/// A card value in scientific notation, whatever the sign of its exponent,
/// reads as a float holding the number as written, with or without spaces
/// around it and a comment after it: what `str::parse::<f64>` accepts.
pub proof fn lemma_scientific_reads_as_float(
    lead: Seq<char>,
    a: Seq<char>,
    b: Seq<char>,
    el: char,
    sg: Seq<char>,
    x: Seq<char>,
    before: nat,
    after: nat,
    comment: Option<Seq<char>>,
)
    requires
        optional_sign(lead),
        a.len() > 0,
        decimal(a),
        decimal(b),
        el == 'e' || el == 'E',
        optional_sign(sg),
        x.len() > 0,
        decimal(x),
    ensures
        ({
            let v = scientific(lead, a, b, el, sg, x);
            let tail = match comment {
                Some(c) => seq!['/'] + c,
                None => Seq::<char>::empty(),
            };
            parse_value_spec(spaces(before) + v + spaces(after) + tail) == ValueView::Float(v)
        }),
{
    let v = scientific(lead, a, b, el, sg, x);
    lemma_scientific_text(lead, a, b, el, sg, x);
    let tail = match comment {
        Some(c) => seq!['/'] + c,
        None => Seq::<char>::empty(),
    };
    let raw = spaces(before) + v + spaces(after) + tail;
    let vl = v.len() as int;
    let la = a.len() as int;
    // Every character of the number is a digit, a sign, a point or the
    // exponent letter: none is whitespace, a quote or a slash.
    assert forall|i: int| 0 <= i < vl implies !is_ws(#[trigger] v[i]) && v[i] != '/' && v[i] != '\'' by {
        let o1 = lead.len() as int;
        let o2 = o1 + la;
        let o3 = o2 + 1 + b.len();
        let o4 = o3 + 1 + sg.len();
        if i < o1 {
            assert(v[i] == lead[i]);
        } else if i < o2 {
            assert(v[i] == a[i - o1]);
        } else if i == o2 {
        } else if i < o3 {
            assert(v[i] == b[i - o2 - 1]);
        } else if i == o3 {
        } else if i < o4 {
            assert(v[i] == sg[i - o3 - 1]);
        } else {
            assert(v[i] == x[i - o4]);
        }
    }
    let r = v + spaces(after) + tail;
    assert forall|i: int| 0 <= i < before implies is_ws(#[trigger] raw[i]) by {
        assert(raw[i] == ' ');
    }
    assert(raw[before as int] == v[0]);
    lemma_trim_start_at(raw, before as int);
    assert(trim_start(raw) =~= r);
    assert(r[0] == v[0]);
    let slash = vl + after;
    assert forall|i: int| 0 <= i < slash implies #[trigger] r[i] != '/' by {
        if i < vl {
            assert(r[i] == v[i]);
        } else {
            assert(r[i] == ' ');
        }
    }
    match comment {
        Some(c) => {
            assert(r[slash] == '/');
            lemma_find_at(r, '/', slash);
        },
        None => {
            assert(r.len() == slash);
            lemma_find_at(r, '/', slash);
        },
    }
    let body = r.take(slash);
    assert(body =~= v + spaces(after));
    lemma_trim_start_at(body, 0);
    assert(trim_start(body) =~= body);
    assert forall|i: int| vl <= i < body.len() implies is_ws(#[trigger] body[i]) by {
        assert(body[i] == ' ');
    }
    assert(body[vl - 1] == v[vl - 1]);
    lemma_trim_end_at(body, vl);
    assert(trim(body) =~= v);
    assert(v.len() > 1);
    assert(v != seq!['T']);
    assert(v != seq!['F']);
}
} // verus!
