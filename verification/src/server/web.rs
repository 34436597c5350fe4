//! The web UI's page and the table of files embedded beside it.

use vstd::prelude::*;

use crate::server::{release, version};
use crate::server::hash::{hex_text, sha1_hex, sha1_of};
use crate::text::{chars_of, push_str, str_eq, string_of, trim};
use crate::server::nova::split_on;

verus! {

/// `s` with every non-overlapping occurrence of `pat`, left to right,
/// replaced by `rep` (`str::replace` for a non-empty pattern).
pub open spec fn replace_all(s: Seq<char>, pat: Seq<char>, rep: Seq<char>) -> Seq<char>
    recommends
        pat.len() > 0,
    decreases s.len(),
{
    if pat.len() == 0 || s.len() < pat.len() {
        s
    } else if s.take(pat.len() as int) == pat {
        rep + replace_all(s.skip(pat.len() as int), pat, rep)
    } else {
        seq![s[0]] + replace_all(s.drop_first(), pat, rep)
    }
}

/// Whether `t[i..]` starts with `pat`.
fn matches_at(t: &Vec<char>, i: usize, pat: &Vec<char>) -> (r: bool)
    requires
        i <= t@.len(),
    ensures
        r == (t@.skip(i as int).len() >= pat@.len() && t@.skip(i as int).take(pat@.len() as int) == pat@),
{
    let ghost s = t@.skip(i as int);
    let n = t.len();
    if n - i < pat.len() {
        return false;
    }
    let mut k: usize = 0;
    while k < pat.len()
        invariant
            n == t@.len(),
            k <= pat@.len(),
            s == t@.skip(i as int),
            s.len() >= pat@.len(),
            i + pat@.len() <= t@.len(),
            forall|j: int| 0 <= j < k ==> s[j] == pat@[j],
        decreases pat@.len() - k,
    {
        assert(i + k < t@.len());
        if t[i + k] != pat[k] {
            assert(s.take(pat@.len() as int)[k as int] != pat@[k as int]);
            return false;
        }
        k = k + 1;
    }
    assert(s.take(pat@.len() as int) =~= pat@);
    true
}

/// The page served at `/`: the template with the version stamped in
/// wherever it reads `{{VERSION}}`.
pub fn page(template: &str) -> (r: String)
    ensures
        r@ == replace_all(template@, "{{VERSION}}"@, release()),
{
    let t = chars_of(template);
    let pat = chars_of("{{VERSION}}");
    let rep = chars_of(version());
    proof { reveal_strlit("{{VERSION}}"); }
    let mut out: Vec<char> = Vec::new();
    let mut i: usize = 0;
    assert(t@.skip(0) =~= t@);
    while i < t.len()
        invariant
            i <= t@.len(),
            t@ == template@,
            pat@ == "{{VERSION}}"@,
            pat@.len() == 11,
            rep@ == release(),
            replace_all(template@, pat@, rep@) == out@ + replace_all(t@.skip(i as int), pat@, rep@),
        decreases t.len() - i,
    {
        let ghost s = t@.skip(i as int);
        let m = matches_at(&t, i, &pat);
        if m {
            assert(s.take(pat@.len() as int) =~= pat@);
            let mut r: usize = 0;
            let ghost before = out@;
            while r < rep.len()
                invariant
                    r <= rep@.len(),
                    out@ == before + rep@.take(r as int),
                decreases rep@.len() - r,
            {
                out.push(rep[r]);
                r = r + 1;
                assert(out@ =~= before + rep@.take(r as int));
            }
            assert(rep@.take(rep@.len() as int) =~= rep@);
            assert(s.skip(pat@.len() as int) =~= t@.skip(i + 11));
            assert(before + replace_all(s, pat@, rep@) =~= out@ + replace_all(t@.skip(i + 11), pat@, rep@));
            i = i + 11;
        } else {
            let ghost before = out@;
            out.push(t[i]);
            assert(s.drop_first() =~= t@.skip(i + 1));
            assert(before + replace_all(s, pat@, rep@) =~= out@ + replace_all(t@.skip(i + 1), pat@, rep@));
            i = i + 1;
        }
    }
    assert(t@.skip(t@.len() as int) =~= Seq::<char>::empty());
    assert(out@ + Seq::<char>::empty() =~= out@);
    string_of(out)
}

/// The embedded files, by name, with their content types.
pub open spec fn asset_type(name: Seq<char>) -> Option<Seq<char>> {
    if name == "style.css"@ {
        Some("text/css; charset=utf-8"@)
    } else if name == "app.js"@ {
        Some("text/javascript; charset=utf-8"@)
    } else if name == "faint-light-logo.png"@ || name == "nightsky-observer-logo.png"@
        || name == "favicon-32.png"@ || name == "favicon-180.png"@ {
        Some("image/png"@)
    } else if name == "favicon.ico"@ {
        Some("image/x-icon"@)
    } else {
        None
    }
}

/// `name` ends with `ext`.
pub open spec fn has_extension(name: Seq<char>, ext: Seq<char>) -> bool {
    name.len() >= ext.len() && name.skip(name.len() - ext.len()) == ext
}

/// The content type a file extension calls for.
pub open spec fn type_of_extension(name: Seq<char>) -> Option<Seq<char>> {
    if has_extension(name, ".css"@) {
        Some("text/css; charset=utf-8"@)
    } else if has_extension(name, ".js"@) {
        Some("text/javascript; charset=utf-8"@)
    } else if has_extension(name, ".png"@) {
        Some("image/png"@)
    } else if has_extension(name, ".ico"@) {
        Some("image/x-icon"@)
    } else {
        None
    }
}

proof fn lemma_not_extension(name: Seq<char>, ext: Seq<char>, j: int)
    requires
        0 < j <= ext.len(),
        ext.len() <= name.len(),
        name[name.len() - j] != ext[ext.len() - j],
    ensures
        !has_extension(name, ext),
{
    if has_extension(name, ext) {
        assert(name.skip(name.len() - ext.len())[ext.len() - j] == ext[ext.len() - j]);
    }
}

proof fn lemma_is_extension(name: Seq<char>, ext: Seq<char>)
    requires
        ext.len() <= name.len(),
        forall|i: int| 0 <= i < ext.len() ==> name[name.len() - ext.len() + i] == #[trigger] ext[i],
    ensures
        has_extension(name, ext),
{
    assert(name.skip(name.len() - ext.len()) =~= ext);
}

/// Every embedded file is served with the content type its extension
/// calls for: a stylesheet as CSS, the script as JavaScript, the images as
/// PNG, the icon as an icon; and each has one of those extensions.
pub proof fn lemma_asset_type_follows_extension(name: Seq<char>)
    ensures
        asset_type(name) is Some ==> type_of_extension(name) is Some && asset_type(name) == type_of_extension(name),
{
    reveal_strlit(".css");
    reveal_strlit(".js");
    reveal_strlit(".png");
    reveal_strlit(".ico");
    if name == "style.css"@ {
        reveal_strlit("style.css");
        lemma_is_extension(name, ".css"@);
    } else if name == "app.js"@ {
        reveal_strlit("app.js");
        lemma_not_extension(name, ".css"@, 2);
        lemma_is_extension(name, ".js"@);
    } else if name == "faint-light-logo.png"@ || name == "nightsky-observer-logo.png"@
        || name == "favicon-32.png"@ || name == "favicon-180.png"@ {
        reveal_strlit("faint-light-logo.png");
        reveal_strlit("nightsky-observer-logo.png");
        reveal_strlit("favicon-32.png");
        reveal_strlit("favicon-180.png");
        lemma_not_extension(name, ".css"@, 1);
        lemma_not_extension(name, ".js"@, 1);
        lemma_is_extension(name, ".png"@);
    } else if name == "favicon.ico"@ {
        reveal_strlit("favicon.ico");
        lemma_not_extension(name, ".css"@, 1);
        lemma_not_extension(name, ".js"@, 1);
        lemma_not_extension(name, ".png"@, 1);
        lemma_is_extension(name, ".ico"@);
    }
}

/// The content type of an embedded file, `None` for any other name.
pub fn lookup(name: &str) -> (r: Option<&'static str>)
    ensures
        match r {
            Some(t) => asset_type(name@) == Some(t@),
            None => asset_type(name@) is None,
        },
{
    if str_eq(name, "style.css") {
        Some("text/css; charset=utf-8")
    } else if str_eq(name, "app.js") {
        Some("text/javascript; charset=utf-8")
    } else if str_eq(name, "faint-light-logo.png") || str_eq(name, "nightsky-observer-logo.png")
        || str_eq(name, "favicon-32.png") || str_eq(name, "favicon-180.png") {
        Some("image/png")
    } else if str_eq(name, "favicon.ico") {
        Some("image/x-icon")
    } else {
        None
    }
}


/// The ETag of an embedded file: the SHA-1 of its bytes, quoted, so a
/// browser revalidates cheaply and still picks up a new build straight
/// away.
pub fn asset_etag(bytes: &[u8]) -> (r: String)
    ensures
        r@ == seq!['"'] + hex_text(sha1_of(bytes@)) + seq!['"'],
{
    let h = sha1_hex(bytes);
    let mut out: Vec<char> = Vec::new();
    out.push('"');
    push_str(h.as_str(), &mut out);
    out.push('"');
    string_of(out)
}

/// Whether an `If-None-Match` value names `etag`: one of its
/// comma-separated entries, trimmed, is it.
pub open spec fn etag_listed(header: Seq<char>, etag: Seq<char>) -> bool {
    exists|i: int| 0 <= i < split_on(header, ',').len() && #[trigger] trim(split_on(header, ',')[i]) == etag
}

/// Whether a browser's `If-None-Match` value already holds `etag`.
pub fn etag_matches(header: &str, etag: &str) -> (r: bool)
    ensures
        r == etag_listed(header@, etag@),
{
    let c = chars_of(header);
    let e = chars_of(etag);
    let mut i: usize = 0;
    let ghost mut seen: int = 0;
    assert(c@.skip(0) =~= c@);
    loop
        invariant
            i <= c@.len(),
            c@ == header@,
            e@ == etag@,
            0 <= seen,
            split_on(header@, ',').skip(seen) == split_on(c@.skip(i as int), ','),
            seen <= split_on(header@, ',').len(),
            forall|j: int| 0 <= j < seen ==> trim(#[trigger] split_on(header@, ',')[j]) != etag@,
        decreases c@.len() - i,
    {
        let ghost t = c@.skip(i as int);
        let ghost all = split_on(header@, ',');
        let comma = crate::text::find_char(&c, i, c.len(), ',');
        proof { crate::text::lemma_find_first(t, ','); }
        assert(c@.subrange(i as int, c@.len() as int) =~= t);
        let b = crate::text::trim_start_index(&c, i, comma);
        let f = crate::text::trim_end_index(&c, b, comma);
        let piece = crate::text::sub_chars(&c, b, f);
        proof {
            crate::text::lemma_trim_start_len(c@.subrange(i as int, comma as int));
            crate::text::lemma_trim_end_len(c@.subrange(b as int, comma as int));
            assert(c@.subrange(i as int, comma as int) =~= t.take(comma - i));
            assert(c@.subrange(i as int, comma as int).skip(b - i) =~= c@.subrange(b as int, comma as int));
            assert(piece@ =~= trim(t.take(comma - i)));
            assert(split_on(t, ',').len() >= 1);
            assert(all.skip(seen).len() == all.len() - seen);
            assert(seen < all.len());
            assert(all.skip(seen)[0] == all[seen]);
            assert(split_on(t, ',')[0] == t.take(comma - i));
        }
        if crate::text::chars_eq(&piece, &e) {
            assert(trim(all[seen]) == etag@);
            return true;
        }
        if comma >= c.len() {
            assert(split_on(t, ',') =~= seq![t]);
            assert(all.skip(seen).len() == 1);
            assert forall|j: int| 0 <= j < all.len() implies trim(#[trigger] all[j]) != etag@ by {
                if j >= seen {
                    assert(j == seen);
                }
            }
            return false;
        }
        assert(t.skip(comma - i + 1) =~= c@.skip(comma + 1));
        assert(all.skip(seen + 1) =~= all.skip(seen).drop_first());
        proof { seen = seen + 1; }
        i = comma + 1;
    }
}
/// Until the output shows a `0` (the first character of every stamped
/// version), stamping copies the template as it is.
proof fn lemma_stamp_copies(t: Seq<char>, k: int)
    requires
        0 <= k <= replace_all(t, "{{VERSION}}"@, release()).len(),
        forall|j: int| 0 <= j < k ==> #[trigger] replace_all(t, "{{VERSION}}"@, release())[j] != '0',
    ensures
        k <= t.len(),
        replace_all(t, "{{VERSION}}"@, release()).take(k) == t.take(k),
    decreases t.len(),
{
    reveal_strlit("{{VERSION}}");
    reveal_strlit("0.1.1a");
    let pat = "{{VERSION}}"@;
    let r = replace_all(t, pat, release());
    if t.len() < pat.len() {
    } else if t.take(pat.len() as int) == pat {
        if k > 0 {
            assert(r[0] == '0');
        }
    } else if k > 0 {
        let rest = replace_all(t.drop_first(), pat, release());
        assert(r == seq![t[0]] + rest);
        assert forall|j: int| 0 <= j < k - 1 implies #[trigger] rest[j] != '0' by {
            assert(rest[j] == r[j + 1]);
        }
        lemma_stamp_copies(t.drop_first(), k - 1);
        assert(r.take(k) =~= seq![t[0]] + rest.take(k - 1));
        assert(t.take(k) =~= seq![t[0]] + t.drop_first().take(k - 1));
    }
}

/// The page never shows the version placeholder: whatever the template, no
/// `{{VERSION}}` is left once the version is stamped in.
pub proof fn lemma_page_has_no_placeholder(template: Seq<char>)
    ensures
        forall|i: int| 0 <= i && i + 11 <= replace_all(template, "{{VERSION}}"@, release()).len() ==>
            #[trigger] replace_all(template, "{{VERSION}}"@, release()).subrange(i, i + 11) != "{{VERSION}}"@,
    decreases template.len(),
{
    reveal_strlit("{{VERSION}}");
    reveal_strlit("0.1.1a");
    let pat = "{{VERSION}}"@;
    let t = template;
    let r = replace_all(t, pat, release());
    if t.len() < pat.len() {
    } else if t.take(pat.len() as int) == pat {
        let rest_t = t.skip(pat.len() as int);
        let rest = replace_all(rest_t, pat, release());
        lemma_page_has_no_placeholder(rest_t);
        assert(r == release() + rest);
        assert forall|i: int| 0 <= i && i + 11 <= r.len() implies #[trigger] r.subrange(i, i + 11) != pat by {
            if i < 6 {
                assert(r.subrange(i, i + 11)[0] == r[i]);
                assert(r[i] == release()[i]);
            } else {
                assert(r.subrange(i, i + 11) =~= rest.subrange(i - 6, i - 6 + 11));
            }
        }
    } else {
        let rest_t = t.drop_first();
        let rest = replace_all(rest_t, pat, release());
        lemma_page_has_no_placeholder(rest_t);
        assert(r == seq![t[0]] + rest);
        assert forall|i: int| 0 <= i && i + 11 <= r.len() implies #[trigger] r.subrange(i, i + 11) != pat by {
            if i >= 1 {
                assert(r.subrange(i, i + 11) =~= rest.subrange(i - 1, i - 1 + 11));
            } else if r.subrange(0, 11) == pat {
                assert forall|j: int| 0 <= j < 10 implies #[trigger] rest[j] != '0' by {
                    assert(rest[j] == r[j + 1]);
                    assert(r[j + 1] == pat[j + 1]);
                }
                lemma_stamp_copies(rest_t, 10);
                assert(t.take(11) =~= seq![t[0]] + rest_t.take(10));
                assert(r.subrange(0, 11) =~= seq![t[0]] + rest.take(10));
                assert(t.take(pat.len() as int) == pat);
            }
        }
    }
}

} // verus!
