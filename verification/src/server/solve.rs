//! Download names for the files a solve produces.

use vstd::prelude::*;

use crate::text::{chars_of, is_ascii_alnum, push_str, string_of};

verus! {

/// What `Path::file_stem` makes of a path written as `path`.
pub uninterp spec fn path_file_stem(path: Seq<char>) -> Option<Seq<char>>;

/// The stem of the file name of `path`.
///
/// Trusted: calls `Path::file_stem` on the path and reads the stem back as a
/// string (it came from a string, so it is one); the contract names the
/// result. The stem depends on the text of the path alone.
#[verifier::external_body]
fn file_stem(path: &str) -> (r: Option<String>)
    ensures
        match r {
            Some(s) => path_file_stem(path@) == Some(s@),
            None => path_file_stem(path@) is None,
        },
{
    std::path::Path::new(path).file_stem().and_then(|s| s.to_str()).map(|s| s.to_owned())
}

/// Characters a download name keeps: ASCII letters and digits, `-`, `_`, `.`.
pub open spec fn name_safe(c: char) -> bool {
    is_ascii_alnum(c) || c == '-' || c == '_' || c == '.'
}

/// `c`, or `_` when a download name cannot hold it.
pub open spec fn safe_char(c: char) -> char {
    if name_safe(c) {
        c
    } else {
        '_'
    }
}

/// At most the first 64 characters of `stem`, made safe.
pub open spec fn safe_stem(stem: Seq<char>) -> Seq<char> {
    let t = if stem.len() > 64 { stem.take(64) } else { stem };
    t.map_values(|c: char| safe_char(c))
}

/// Whether `c` is trimmed from both ends of a name.
pub open spec fn edge_char(c: char) -> bool {
    c == '.' || c == '_'
}

/// How many leading characters are trimmed.
pub open spec fn lead_len(s: Seq<char>) -> nat
    decreases s.len(),
{
    if s.len() > 0 && edge_char(s[0]) {
        1 + lead_len(s.drop_first())
    } else {
        0
    }
}

/// How many trailing characters are trimmed.
pub open spec fn tail_len(s: Seq<char>) -> nat
    decreases s.len(),
{
    if s.len() > 0 && edge_char(s.last()) {
        1 + tail_len(s.drop_last())
    } else {
        0
    }
}

/// `s` without leading and trailing dots and underscores.
pub open spec fn trim_edges(s: Seq<char>) -> Seq<char> {
    let a = s.skip(lead_len(s) as int);
    a.take(a.len() - tail_len(a))
}

/// The download name for an upload whose file stem is `stem`: the safe
/// stem (or `image` when nothing is left of it), a dot, and `suffix`.
pub open spec fn download_name(stem: Seq<char>, suffix: Seq<char>) -> Seq<char> {
    let t = trim_edges(safe_stem(stem));
    (if t.len() == 0 { "image"@ } else { t }) + seq!['.'] + suffix
}

proof fn lemma_lead_len(s: Seq<char>)
    ensures
        lead_len(s) <= s.len(),
        forall|i: int| 0 <= i < lead_len(s) ==> edge_char(#[trigger] s[i]),
        lead_len(s) < s.len() ==> !edge_char(s[lead_len(s) as int]),
    decreases s.len(),
{
    if s.len() > 0 && edge_char(s[0]) {
        lemma_lead_len(s.drop_first());
        assert forall|i: int| 0 <= i < lead_len(s) implies edge_char(#[trigger] s[i]) by {
            if i > 0 {
                assert(s[i] == s.drop_first()[i - 1]);
            }
        }
    }
}

proof fn lemma_tail_len(s: Seq<char>)
    ensures
        tail_len(s) <= s.len(),
        forall|i: int| s.len() - tail_len(s) <= i < s.len() ==> edge_char(#[trigger] s[i]),
        tail_len(s) < s.len() ==> !edge_char(s[s.len() - tail_len(s) - 1]),
    decreases s.len(),
{
    if s.len() > 0 && edge_char(s.last()) {
        lemma_tail_len(s.drop_last());
        assert forall|i: int| s.len() - tail_len(s) <= i < s.len() implies edge_char(#[trigger] s[i]) by {
            if i < s.len() - 1 {
                assert(s[i] == s.drop_last()[i]);
            }
        }
        if tail_len(s) < s.len() {
            assert(s[s.len() - tail_len(s) - 1] == s.drop_last()[s.drop_last().len() - tail_len(s.drop_last()) - 1]);
        }
    }
}

/// A download name derived from what the client uploaded, reduced to
/// characters that survive a Content-Disposition header and every
/// filesystem a client might save it to. The part before the suffix is
/// never empty, holds only ASCII letters, digits, `-`, `_` and `.`, is at
/// most 64 characters long, and neither starts nor ends with `.` or `_`.
pub fn derived_name(uploaded: &str, suffix: &str) -> (r: String)
    ensures
        r@ == download_name(
            match path_file_stem(uploaded@) {
                Some(s) => s,
                None => seq![],
            },
            suffix@,
        ),
        r@.len() > suffix@.len(),
        r@.len() <= 65 + suffix@.len(),
        r@.skip(r@.len() - suffix@.len() - 1) == seq!['.'] + suffix@,
        forall|i: int| 0 <= i < r@.len() - suffix@.len() - 1 ==> name_safe(#[trigger] r@[i]),
        !edge_char(r@[0]),
        !edge_char(r@[r@.len() - suffix@.len() - 2]),
{
    let stem = match file_stem(uploaded) {
        Some(s) => s,
        None => String::new(),
    };
    let ghost st = stem@;
    let sc = chars_of(stem.as_str());
    let n: usize = if sc.len() > 64 { 64 } else { sc.len() };
    let mut safe: Vec<char> = Vec::new();
    let mut i: usize = 0;
    while i < n
        invariant
            i <= n <= sc@.len(),
            sc@ == st,
            n == (if st.len() > 64 { 64 } else { st.len() }),
            safe@ == st.take(i as int).map_values(|c: char| safe_char(c)),
        decreases n - i,
    {
        let c = sc[i];
        let d = if ('0' <= c && c <= '9') || ('a' <= c && c <= 'z') || ('A' <= c && c <= 'Z') || c == '-' || c == '_' || c == '.' {
            c
        } else {
            '_'
        };
        safe.push(d);
        i = i + 1;
        assert(safe@ =~= st.take(i as int).map_values(|c: char| safe_char(c)));
    }
    let ghost ss = safe_stem(st);
    assert(safe@ =~= ss) by {
        if st.len() <= 64 {
            assert(st.take(n as int) =~= st);
        }
    }
    proof { lemma_lead_len(ss); }
    let mut a: usize = 0;
    while a < safe.len() && (safe[a] == '.' || safe[a] == '_')
        invariant
            a <= lead_len(ss),
            safe@ == ss,
            lead_len(ss) <= ss.len(),
            forall|j: int| 0 <= j < lead_len(ss) ==> edge_char(#[trigger] ss[j]),
            lead_len(ss) < ss.len() ==> !edge_char(ss[lead_len(ss) as int]),
        decreases safe@.len() - a,
    {
        a = a + 1;
    }
    assert(a == lead_len(ss));
    let ghost mid = ss.skip(a as int);
    proof { lemma_tail_len(mid); }
    let mut b: usize = safe.len();
    while b > a && (safe[b - 1] == '.' || safe[b - 1] == '_')
        invariant
            a <= b <= safe@.len(),
            safe@ == ss,
            mid == ss.skip(a as int),
            safe@.len() - b <= tail_len(mid),
            tail_len(mid) <= mid.len(),
            forall|j: int| mid.len() - tail_len(mid) <= j < mid.len() ==> edge_char(#[trigger] mid[j]),
            tail_len(mid) < mid.len() ==> !edge_char(mid[mid.len() - tail_len(mid) - 1]),
        decreases b - a,
    {
        assert(mid[b - 1 - a] == safe@[b - 1]);
        b = b - 1;
    }
    proof {
        if b > a {
            assert(mid[b - 1 - a] == safe@[b - 1]);
        }
    }
    assert(safe@.len() - b == tail_len(mid));
    let ghost t = trim_edges(ss);
    let mut out: Vec<char> = Vec::new();
    if b == a {
        push_str("image", &mut out);
        proof { reveal_strlit("image"); }
    } else {
        let mut j = a;
        while j < b
            invariant
                a <= j <= b <= safe@.len(),
                out@ == safe@.subrange(a as int, j as int),
            decreases b - j,
        {
            out.push(safe[j]);
            j = j + 1;
            assert(out@ =~= safe@.subrange(a as int, j as int));
        }
        assert(out@ =~= t);
    }
    let ghost body = out@;
    assert forall|j: int| 0 <= j < body.len() implies name_safe(#[trigger] body[j]) && (j == 0 || j == body.len() - 1 ==> !edge_char(body[j])) by {
        if b > a {
            assert(body[j] == ss[a + j]);
            assert(ss[a + j] == safe_char(st[a + j]));
            assert(mid[j] == ss[a + j]);
        }
    }
    out.push('.');
    push_str(suffix, &mut out);
    assert(out@ =~= body + seq!['.'] + suffix@);
    assert(out@.skip(out@.len() - suffix@.len() - 1) =~= seq!['.'] + suffix@);
    assert forall|i: int| 0 <= i < out@.len() - suffix@.len() - 1 implies name_safe(#[trigger] out@[i]) by {
        assert(out@[i] == body[i]);
    }
    string_of(out)
}

/// The `Content-Disposition` value that serves a file as `disposition`
/// (`attachment` or `inline`) under the download name `filename`.
pub fn content_disposition(disposition: &str, filename: &str) -> (r: String)
    ensures
        r@ == disposition@ + "; filename=\""@ + filename@ + "\""@,
{
    let mut out: Vec<char> = Vec::new();
    push_str(disposition, &mut out);
    push_str("; filename=\"", &mut out);
    push_str(filename, &mut out);
    push_str("\"", &mut out);
    string_of(out)
}

} // verus!
