//! Form bodies shared by both APIs: the uploaded file plus every text
//! field, in arrival order.

use vstd::prelude::*;

use crate::fits::header::lower;
use crate::text::{chars_eq, chars_of, str_eq, sub_chars, to_ascii_lower, trim, trim_end_index, trim_start_index};

verus! {

/// A parsed multipart body: the uploaded file plus every text field, in
/// arrival order. A multipart body can only be read once, so endpoints that
/// need more than `file` collect everything here and pick afterwards.
#[derive(Debug)]
pub struct Form {
    pub file: Option<(String, Vec<u8>)>,
    pub fields: Vec<(String, String)>,
}

/// The fields as (name, value) texts.
pub open spec fn field_views(fields: Seq<(String, String)>) -> Seq<(Seq<char>, Seq<char>)> {
    fields.map_values(|f: (String, String)| (f.0@, f.1@))
}

/// The value of the first field called `name`.
pub open spec fn first_field(fields: Seq<(Seq<char>, Seq<char>)>, name: Seq<char>) -> Option<Seq<char>>
    decreases fields.len(),
{
    if fields.len() == 0 {
        None
    } else if fields[0].0 == name {
        Some(fields[0].1)
    } else {
        first_field(fields.drop_first(), name)
    }
}

/// A checkbox value that reads as on: empty (a checked box posts no
/// value), or `1`, `true`, `yes`, `on` in any ASCII case, around spaces.
pub open spec fn flag_on(v: Seq<char>) -> bool {
    let t = trim(v);
    let l = lower(t);
    t.len() == 0 || l == "1"@ || l == "true"@ || l == "yes"@ || l == "on"@
}

/// Why an upload has no usable file.
pub open spec fn upload_problem(file: Option<(Seq<char>, Seq<u8>)>) -> Option<Seq<char>> {
    match file {
        None => Some("no file field in upload"@),
        Some((_, b)) => if b.len() == 0 { Some("empty upload"@) } else { None },
    }
}

impl Form {
    /// The fields as texts, in arrival order.
    pub open spec fn field_list(&self) -> Seq<(Seq<char>, Seq<char>)> {
        field_views(self.fields@)
    }

    /// The value of the first field called `name`.
    pub fn field(&self, name: &str) -> (r: Option<&str>)
        ensures
            match r {
                Some(v) => first_field(self.field_list(), name@) == Some(v@),
                None => first_field(self.field_list(), name@) is None,
            },
    {
        let ghost all = self.field_list();
        let mut i: usize = 0;
        assert(all.skip(0) =~= all);
        while i < self.fields.len()
            invariant
                i <= self.fields@.len(),
                all == self.field_list(),
                first_field(all, name@) == first_field(all.skip(i as int), name@),
            decreases self.fields.len() - i,
        {
            assert(all.skip(i as int)[0] == (self.fields@[i as int].0@, self.fields@[i as int].1@));
            if str_eq(self.fields[i].0.as_str(), name) {
                return Some(self.fields[i].1.as_str());
            }
            assert(all.skip(i as int).drop_first() =~= all.skip(i + 1));
            i = i + 1;
        }
        None
    }

    /// A checkbox-style flag. Absent is false; present without a value (as
    /// an HTML form posts a checked box) is true.
    pub fn flag(&self, name: &str) -> (r: bool)
        ensures
            r == match first_field(self.field_list(), name@) {
                Some(v) => flag_on(v),
                None => false,
            },
    {
        let v = match self.field(name) {
            None => return false,
            Some(v) => v,
        };
        let c = chars_of(v);
        let b = trim_start_index(&c, 0, c.len());
        let e = trim_end_index(&c, b, c.len());
        assert(c@.subrange(0, c@.len() as int) =~= c@);
        let t = sub_chars(&c, b, e);
        assert(t@ =~= trim(v@));
        if t.len() == 0 {
            return true;
        }
        let mut l: Vec<char> = Vec::new();
        let mut i: usize = 0;
        while i < t.len()
            invariant
                i <= t@.len(),
                l@ == lower(t@.take(i as int)),
            decreases t.len() - i,
        {
            l.push(to_ascii_lower(t[i]));
            i = i + 1;
            assert(l@ =~= lower(t@.take(i as int)));
        }
        assert(t@.take(t@.len() as int) =~= t@);
        let one = chars_of("1");
        let yes_true = chars_of("true");
        let yes = chars_of("yes");
        let on = chars_of("on");
        chars_eq(&l, &one) || chars_eq(&l, &yes_true) || chars_eq(&l, &yes) || chars_eq(&l, &on)
    }

    /// Take the uploaded image, or the message to refuse the upload with.
    pub fn take_upload(&mut self) -> (r: Result<(String, Vec<u8>), &'static str>)
        ensures
            final(self).fields == old(self).fields,
            final(self).file is None,
            match r {
                Ok((name, bytes)) => {
                    &&& upload_problem(match old(self).file { Some((n, b)) => Some((n@, b@)), None => None }) is None
                    &&& old(self).file matches Some((n, b)) && n@ == name@ && b@ == bytes@
                },
                Err(m) => upload_problem(match old(self).file { Some((n, b)) => Some((n@, b@)), None => None }) == Some(m@),
            },
    {
        match self.file.take() {
            None => Err("no file field in upload"),
            Some((name, b)) => {
                if b.len() == 0 {
                    Err("empty upload")
                } else {
                    Ok((name, b))
                }
            },
        }
    }
}

} // verus!
