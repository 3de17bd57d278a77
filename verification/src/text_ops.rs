//! Operations on the characters of paths: splitting at dots, trailing `[]`,
//! and the names of enumerations.
use vstd::prelude::*;

use crate::schema::{ends_brackets, name_chars, split_dot, trim_brackets};

verus! {

/// The characters of a string.
pub fn chars_of(s: &String) -> (r: Vec<char>)
    ensures
        r@ == s@,
{
    let n = s.as_str().unicode_len();
    let mut r: Vec<char> = Vec::new();
    let mut i: usize = 0;
    while i < n
        invariant
            i <= n,
            n == s@.len(),
            r@ == s@.take(i as int),
        decreases n - i,
    {
        let c = s.as_str().get_char(i);
        r.push(c);
        i = i + 1;
        assert(r@ =~= s@.take(i as int));
    }
    assert(s@.take(n as int) =~= s@);
    r
}

/// The characters of `s` from `from` to `to`, as a string.
pub fn substring(s: &String, from: usize, to: usize) -> (r: String)
    requires
        from <= to <= s@.len(),
    ensures
        r@ == s@.subrange(from as int, to as int),
{
    s.as_str().substring_char(from, to).to_owned()
}

/// The strings of a list of strings.
pub open spec fn strings_model(v: Vec<String>) -> Seq<Seq<char>> {
    v@.map_values(|s: String| s@)
}

/// The parts of `path` between its dots.
pub fn split_path(path: &String) -> (r: Vec<String>)
    ensures
        strings_model(r) == split_dot(path@),
{
    let cs = chars_of(path);
    let mut parts: Vec<String> = Vec::new();
    let mut start: usize = 0;
    let mut i: usize = 0;
    assert(path@.take(0) =~= Seq::<char>::empty());
    assert(strings_model(parts).push(path@.subrange(0, 0)) =~= seq![Seq::<char>::empty()]);
    while i < cs.len()
        invariant
            start <= i <= cs.len(),
            cs@ == path@,
            strings_model(parts).push(path@.subrange(start as int, i as int)) == split_dot(
                path@.take(i as int),
            ),
        decreases cs.len() - i,
    {
        let ghost before = strings_model(parts);
        let ghost r = split_dot(path@.take(i as int));
        assert(path@.take(i as int + 1).drop_last() =~= path@.take(i as int));
        if cs[i] == '.' {
            let ghost s0 = start;
            let part = substring(path, start, i);
            parts.push(part);
            start = i + 1;
            assert(strings_model(parts) =~= before.push(path@.subrange(s0 as int, i as int)));
            assert(path@.subrange(start as int, i as int + 1) =~= Seq::<char>::empty());
            assert(r == before.push(path@.subrange(s0 as int, i as int)));
            assert(strings_model(parts).push(path@.subrange(start as int, i as int + 1)) =~= r.push(seq![]));
        } else {
            let ghost last = path@.subrange(start as int, i as int);
            assert(path@.subrange(start as int, i as int + 1) =~= last.push(cs[i as int]));
            assert(before.push(path@.subrange(start as int, i as int + 1)) =~= r.update(r.len() - 1, r.last().push(cs[i as int])));
        }
        i = i + 1;
    }
    parts.push(substring(path, start, cs.len()));
    assert(path@.take(cs.len() as int) =~= path@);
    parts
}

/// Whether a part ends in `[]`.
pub fn ends_with_brackets(part: &String) -> (r: bool)
    ensures
        r == ends_brackets(part@),
{
    let n = part.as_str().unicode_len();
    if n < 2 {
        return false;
    }
    part.as_str().get_char(n - 2) == '[' && part.as_str().get_char(n - 1) == ']'
}

/// The part without all its trailing `[]`.
pub fn trim_trailing_brackets(part: &String) -> (r: String)
    ensures
        r@ == trim_brackets(part@),
{
    let mut cur = part.clone();
    while ends_with_brackets(&cur)
        invariant
            trim_brackets(cur@) == trim_brackets(part@),
        decreases cur@.len(),
    {
        let n = cur.as_str().unicode_len();
        cur = substring(&cur, 0, n - 2);
    }
    cur
}

/// The characters of `path` as they appear in an enumeration's name.
pub fn enum_name_chars(path: &String) -> (r: String)
    ensures
        r@ == name_chars(path@),
{
    let cs = chars_of(path);
    let mut out = String::new();
    let mut i: usize = 0;
    while i < cs.len()
        invariant
            i <= cs.len(),
            cs@ == path@,
            out@ == name_chars(path@.take(i as int)),
        decreases cs.len() - i,
    {
        assert(path@.take(i as int + 1).drop_last() =~= path@.take(i as int));
        assert(path@.take(i as int + 1).last() == cs[i as int]);
        if cs[i] == '.' {
            out.append("_");
            proof {
                reveal_strlit("_");
            }
        } else if cs[i] == '[' || cs[i] == ']' {
            assert(name_chars(path@.take(i as int)) + seq![] =~= name_chars(path@.take(i as int)));
        } else {
            let one = substring(path, i, i + 1);
            assert(one@ =~= seq![cs[i as int]]);
            out.append(one.as_str());
        }
        i = i + 1;
    }
    assert(path@.take(cs.len() as int) =~= path@);
    out
}

} // verus!
