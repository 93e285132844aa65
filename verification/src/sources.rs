//! Lists of node ids given as sources.
use vstd::prelude::*;

use crate::id_map::{id_map_contains, id_map_insert, id_map_new, id_map_view};

verus! {

/// The ids of `v` as character sequences.
pub open spec fn string_views(v: Seq<String>) -> Seq<Seq<char>> {
    Seq::new(v.len(), |i: int| v[i]@)
}

/// The elements of `s`, each once, in the order of their first occurrence.
pub open spec fn first_occurrences<A>(s: Seq<A>) -> Seq<A>
    decreases s.len(),
{
    if s.len() == 0 {
        Seq::empty()
    } else {
        let r = first_occurrences(s.drop_last());
        if r.contains(s.last()) {
            r
        } else {
            r.push(s.last())
        }
    }
}

/// The ids of `ids` without repeats: the first occurrence of each id is kept,
/// in order.
#[verifier::spinoff_prover]
pub fn dedup_ids(ids: &Vec<String>) -> (out: Vec<String>)
    ensures
        string_views(out@) == first_occurrences(string_views(ids@)),
{
    let ghost all = string_views(ids@);
    let mut seen = id_map_new();
    let mut out: Vec<String> = Vec::new();
    let mut i: usize = 0;
    while i < ids.len()
        invariant
            i <= ids@.len(),
            all == string_views(ids@),
            string_views(out@) == first_occurrences(all.take(i as int)),
            forall|x: Seq<char>| #[trigger] id_map_view(seen).contains_key(x) <==> first_occurrences(all.take(i as int)).contains(x),
        decreases ids@.len() - i,
    {
        let id = &ids[i];
        proof {
            assert(all.take(i + 1).drop_last() =~= all.take(i as int));
            assert(all.take(i + 1).last() == id@);
        }
        if !id_map_contains(&seen, id) {
            id_map_insert(&mut seen, id.clone(), i);
            let ghost before = out@;
            out.push(id.clone());
            proof {
                assert(string_views(out@) =~= string_views(before).push(id@));
                assert forall|x: Seq<char>| #[trigger] id_map_view(seen).contains_key(x) <==> first_occurrences(all.take(i + 1)).contains(x) by {
                    let r = first_occurrences(all.take(i as int));
                    if x != id@ {
                        if r.push(id@).contains(x) {
                            let k = choose|k: int| 0 <= k < r.push(id@).len() && r.push(id@)[k] == x;
                            assert(r[k] == x);
                        }
                        if r.contains(x) {
                            let k = choose|k: int| 0 <= k < r.len() && r[k] == x;
                            assert(r.push(id@)[k] == x);
                        }
                    } else {
                        assert(r.push(id@)[r.len() as int] == x);
                    }
                }
            }
        }
        i = i + 1;
    }
    proof {
        assert(all.take(ids@.len() as int) =~= all);
    }
    out
}

/// White space as `char::is_whitespace` has it: the characters with the
/// Unicode `White_Space` property.
pub open spec fn is_white(c: char) -> bool {
    let u = c as u32;
    ||| 0x9 <= u <= 0xd
    ||| u == 0x20
    ||| u == 0x85
    ||| u == 0xa0
    ||| u == 0x1680
    ||| 0x2000 <= u <= 0x200a
    ||| u == 0x2028
    ||| u == 0x2029
    ||| u == 0x202f
    ||| u == 0x205f
    ||| u == 0x3000
}

/// The text without its leading white space.
pub open spec fn trim_start(s: Seq<char>) -> Seq<char>
    decreases s.len(),
{
    if s.len() > 0 && is_white(s[0]) {
        trim_start(s.drop_first())
    } else {
        s
    }
}

/// The text without its trailing white space.
pub open spec fn trim_end(s: Seq<char>) -> Seq<char>
    decreases s.len(),
{
    if s.len() > 0 && is_white(s.last()) {
        trim_end(s.drop_last())
    } else {
        s
    }
}

/// What `str::trim` leaves of a text: the text without its leading and
/// trailing white space.
pub open spec fn trimmed(s: Seq<char>) -> Seq<char> {
    trim_end(trim_start(s))
}

/// `str::trim`: the text without leading and trailing white space, white
/// space being the Unicode `White_Space` characters.
#[verifier::external_body]
fn trim(s: &str) -> (t: &str)
    ensures
        t@ == trimmed(s@),
{
    s.trim()
}

/// The source id that a trimmed line gives: none for a blank line or a
/// comment (a line that starts with `#`), else the line itself.
pub open spec fn line_id(t: Seq<char>) -> Option<Seq<char>> {
    if t.len() == 0 || t[0] == '#' {
        None
    } else {
        Some(t)
    }
}

/// The source id of an already trimmed line of a sources file.
pub fn source_id_of_trimmed(t: &str) -> (r: Option<String>)
    ensures
        match r {
            Some(x) => line_id(t@) == Some(x@),
            None => line_id(t@) is None,
        },
{
    if t.is_empty() {
        return None;
    }
    if t.get_char(0) == '#' {
        return None;
    }
    Some(String::from_str(t))
}

/// The source id of a line of a sources file: the line without surrounding
/// white space, unless that is blank or a comment.
pub fn source_line_id(line: &str) -> (r: Option<String>)
    ensures
        match r {
            Some(x) => line_id(trimmed(line@)) == Some(x@),
            None => line_id(trimmed(line@)) is None,
        },
{
    let t = trim(line);
    source_id_of_trimmed(t)
}

} // verus!
