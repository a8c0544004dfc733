//! Executable character and string helpers, each proved against the
//! spec functions of the parser module.

use vstd::prelude::*;
use crate::parser::{
    find_first_non_ws, find_first_ws, is_ws, rfind_significant, split_all, split_term, trim_left,
    trim_right, trim_spec,
};

verus! {

broadcast use vstd::std_specs::vec::group_vec_axioms, vstd::seq::group_seq_axioms;

/// Whether `c` has the Unicode `White_Space` property.
pub fn is_ws_char(c: char) -> (r: bool)
    ensures
        r == is_ws(c),
{
    let u = c as u32;
    (0x09 <= u && u <= 0x0D) || u == 0x20 || u == 0x85 || u == 0xA0 || u == 0x1680 || (0x2000
        <= u && u <= 0x200A) || u == 0x2028 || u == 0x2029 || u == 0x202F || u == 0x205F || u
        == 0x3000
}

/// The characters of `s`, in order.
pub fn chars_of_str(s: &str) -> (r: Vec<char>)
    ensures
        r@ == s@,
{
    let len = s.unicode_len();
    let mut r: Vec<char> = Vec::new();
    let mut i: usize = 0;
    while i < len
        invariant
            i <= len,
            len == s@.len(),
            r@ == s@.subrange(0, i as int),
        decreases len - i,
    {
        let c = s.get_char(i);
        r.push(c);
        proof {
            assert(r@ =~= s@.subrange(0, i + 1 as int));
        }
        i = i + 1;
    }
    proof {
        assert(r@ =~= s@);
    }
    r
}

/// Relies on `String::from_iter` over `char`: the built string holds
/// exactly the given characters, in order.
#[verifier::external_body]
pub fn string_from_chars(v: &Vec<char>) -> (r: String)
    ensures
        r@ == v@,
{
    v.iter().collect()
}

/// Trimming from the left keeps a suffix; stated as: it equals the
/// suffix that starts at the first non-whitespace character.
proof fn lemma_trim_left_skip(s: Seq<char>, i: int)
    requires
        0 <= i <= s.len(),
        forall|j: int| 0 <= j < i ==> is_ws(s[j]),
    ensures
        trim_left(s) == trim_left(s.skip(i)),
    decreases i,
{
    if i == 0 {
        assert(s.skip(0) =~= s);
    } else {
        assert(trim_left(s) == trim_left(s.drop_first()));
        assert(s.drop_first() =~= s.skip(1));
        lemma_trim_left_skip(s.skip(1), i - 1);
        assert(s.skip(1).skip(i - 1) =~= s.skip(i));
    }
}

/// Trimming from the right keeps a prefix; stated as: it equals the
/// prefix that ends after the last non-whitespace character.
proof fn lemma_trim_right_take(s: Seq<char>, i: int)
    requires
        0 <= i <= s.len(),
        forall|j: int| i <= j < s.len() ==> is_ws(s[j]),
    ensures
        trim_right(s) == trim_right(s.take(i)),
    decreases s.len() - i,
{
    if i == s.len() {
        assert(s.take(i) =~= s);
    } else {
        assert(trim_right(s) == trim_right(s.drop_last()));
        assert(s.drop_last() =~= s.take(s.len() - 1));
        lemma_trim_right_take(s.take(s.len() - 1), i);
        assert(s.take(s.len() - 1).take(i) =~= s.take(i));
    }
}

/// `s` with leading and trailing whitespace removed.
pub fn trim_chars(v: &Vec<char>) -> (r: Vec<char>)
    ensures
        r@ == trim_spec(v@),
{
    let len = v.len();
    let mut start: usize = 0;
    while start < len && is_ws_char(v[start])
        invariant
            0 <= start <= len,
            len == v@.len(),
            forall|j: int| 0 <= j < start ==> is_ws(v@[j]),
        decreases len - start,
    {
        start = start + 1;
    }
    proof {
        lemma_trim_left_skip(v@, start as int);
        if start < len {
            assert(trim_left(v@.skip(start as int)) == v@.skip(start as int));
        } else {
            assert(v@.skip(start as int) =~= Seq::<char>::empty());
        }
    }
    let mut end: usize = len;
    while end > start && is_ws_char(v[end - 1])
        invariant
            start <= end <= len,
            len == v@.len(),
            forall|j: int| end <= j < len ==> is_ws(v@[j]),
        decreases end,
    {
        end = end - 1;
    }
    proof {
        let tl = v@.skip(start as int);
        lemma_trim_right_take(tl, end - start);
        if end > start {
            assert(tl.take(end - start).last() == v@[end - 1]);
            assert(trim_right(tl.take(end - start)) == tl.take(end - start));
        } else {
            assert(tl.take(0) =~= Seq::<char>::empty());
        }
        assert(tl.take(end - start) =~= v@.subrange(start as int, end as int));
    }
    let mut r: Vec<char> = Vec::new();
    let mut i: usize = start;
    while i < end
        invariant
            start <= i <= end <= len,
            len == v@.len(),
            r@ == v@.subrange(start as int, i as int),
        decreases end - i,
    {
        let c = v[i];
        r.push(c);
        proof {
            assert(r@ =~= v@.subrange(start as int, i + 1 as int));
        }
        i = i + 1;
    }
    proof {
        assert(r@ =~= v@.subrange(start as int, end as int));
    }
    r
}

/// Splitting yields at least one piece.
pub proof fn lemma_split_all_len(s: Seq<char>)
    ensures
        split_all(s).len() >= 1,
    decreases s.len(),
{
    if s.len() > 0 {
        lemma_split_all_len(s.drop_first());
    }
}

/// The first piece of a split, with a prefix attached to it.
spec fn prepend_first(p: Seq<char>, ps: Seq<Seq<char>>) -> Seq<Seq<char>> {
    seq![p + ps[0]] + ps.drop_first()
}

/// `t` split at every `.`, a trailing empty piece dropped, each piece
/// handed back as its own string.
#[verifier::rlimit(60)]
pub fn split_term_chars(t: &Vec<char>) -> (r: Vec<String>)
    ensures
        r.deep_view() == split_term(t@),
{
    let len = t.len();
    let mut done: Vec<String> = Vec::new();
    let mut cur: Vec<char> = Vec::new();
    let mut j: usize = 0;
    proof {
        lemma_split_all_len(t@);
        assert(t@.skip(0) =~= t@);
        assert(prepend_first(Seq::<char>::empty(), split_all(t@)) =~= split_all(t@));
    }
    while j < len
        invariant
            0 <= j <= len,
            len == t@.len(),
            split_all(t@.skip(j as int)).len() >= 1,
            split_all(t@) =~= done.deep_view() + prepend_first(
                cur@,
                split_all(t@.skip(j as int)),
            ),
        decreases len - j,
    {
        let c = t[j];
        proof {
            assert(t@.skip(j as int)[0] == t@[j as int]);
            assert(t@.skip(j as int).drop_first() =~= t@.skip(j + 1 as int));
            lemma_split_all_len(t@.skip(j + 1 as int));
        }
        if c == '.' {
            let piece = string_from_chars(&cur);
            let ghost old_done = done.deep_view();
            done.push(piece);
            proof {
                assert(done.deep_view() =~= old_done.push(cur@));
                assert(split_all(t@) =~= done.deep_view() + prepend_first(
                    Seq::<char>::empty(),
                    split_all(t@.skip(j + 1 as int)),
                ));
            }
            cur = Vec::new();
        } else {
            let ghost old_cur = cur@;
            cur.push(c);
            proof {
                let rest = split_all(t@.skip(j + 1 as int));
                assert(split_all(t@.skip(j as int)) =~= seq![seq![t@[j as int]] + rest[0]]
                    + rest.drop_first());
                assert(cur@ + rest[0] =~= old_cur + (seq![t@[j as int]] + rest[0]));
                assert(split_all(t@) =~= done.deep_view() + prepend_first(cur@, rest));
            }
        }
        j = j + 1;
    }
    proof {
        assert(t@.skip(len as int) =~= Seq::<char>::empty());
        assert(split_all(t@) =~= done.deep_view().push(cur@));
        assert(split_all(t@).last() == cur@);
    }
    if cur.len() == 0 {
        proof {
            assert(split_term(t@) =~= done.deep_view());
        }
        done
    } else {
        let piece = string_from_chars(&cur);
        let ghost old_done = done.deep_view();
        done.push(piece);
        proof {
            assert(done.deep_view() =~= old_done.push(cur@));
            assert(split_term(t@) =~= done.deep_view());
        }
        done
    }
}

/// What the position returned by `rfind_significant` means: the last
/// position holding a newline or non-whitespace, every later position
/// holding only other whitespace.
pub proof fn lemma_rfind_significant(s: Seq<char>)
    ensures
        match rfind_significant(s) {
            Option::None => forall|j: int|
                0 <= j < s.len() ==> !(s[j] == '\n' || !is_ws(s[j])),
            Option::Some(p) => 0 <= p < s.len() && (s[p] == '\n' || !is_ws(s[p])) && forall|
                j: int,
            | p < j < s.len() ==> !(s[j] == '\n' || !is_ws(s[j])),
        },
    decreases s.len(),
{
    if s.len() > 0 && !(s.last() == '\n' || !is_ws(s.last())) {
        lemma_rfind_significant(s.drop_last());
        assert(forall|j: int| 0 <= j < s.len() - 1 ==> s.drop_last()[j] == s[j]);
    }
}

/// What the position returned by `find_first_ws` means.
pub proof fn lemma_find_first_ws(s: Seq<char>)
    ensures
        match find_first_ws(s) {
            Option::None => forall|j: int| 0 <= j < s.len() ==> !is_ws(s[j]),
            Option::Some(p) => 0 <= p < s.len() && is_ws(s[p]) && forall|j: int|
                0 <= j < p ==> !is_ws(s[j]),
        },
    decreases s.len(),
{
    if s.len() > 0 && !is_ws(s[0]) {
        lemma_find_first_ws(s.drop_first());
        match find_first_ws(s.drop_first()) {
            Option::None => {
                assert forall|j: int| 0 <= j < s.len() implies !is_ws(s[j]) by {
                    if j >= 1 {
                        assert(!is_ws(s.drop_first()[j - 1]));
                    }
                }
            },
            Option::Some(i) => {
                assert(is_ws(s.drop_first()[i]));
                assert forall|j: int| 0 <= j < i + 1 implies !is_ws(s[j]) by {
                    if j >= 1 {
                        assert(!is_ws(s.drop_first()[j - 1]));
                    }
                }
            },
        }
    }
}

/// What the position returned by `find_first_non_ws` means.
pub proof fn lemma_find_first_non_ws(s: Seq<char>)
    ensures
        match find_first_non_ws(s) {
            Option::None => forall|j: int| 0 <= j < s.len() ==> is_ws(s[j]),
            Option::Some(p) => 0 <= p < s.len() && !is_ws(s[p]) && forall|j: int|
                0 <= j < p ==> is_ws(s[j]),
        },
    decreases s.len(),
{
    if s.len() > 0 && is_ws(s[0]) {
        lemma_find_first_non_ws(s.drop_first());
        match find_first_non_ws(s.drop_first()) {
            Option::None => {
                assert forall|j: int| 0 <= j < s.len() implies is_ws(s[j]) by {
                    if j >= 1 {
                        assert(is_ws(s.drop_first()[j - 1]));
                    }
                }
            },
            Option::Some(i) => {
                assert(!is_ws(s.drop_first()[i]));
                assert forall|j: int| 0 <= j < i + 1 implies is_ws(s[j]) by {
                    if j >= 1 {
                        assert(is_ws(s.drop_first()[j - 1]));
                    }
                }
            },
        }
    }
}

/// The last position in `v` holding a newline or a non-whitespace
/// character.
pub fn rfind_significant_chars(v: &Vec<char>) -> (r: Option<usize>)
    ensures
        match r {
            Option::None => rfind_significant(v@) is None,
            Option::Some(p) => rfind_significant(v@) == Option::Some(p as int),
        },
{
    proof {
        lemma_rfind_significant(v@);
    }
    let mut i: usize = v.len();
    while i > 0
        invariant
            0 <= i <= v@.len(),
            forall|j: int| i <= j < v@.len() ==> !(v@[j] == '\n' || !is_ws(v@[j])),
        decreases i,
    {
        let c = v[i - 1];
        if c == '\n' || !is_ws_char(c) {
            proof {
                lemma_rfind_significant(v@);
            }
            return Option::Some(i - 1);
        }
        i = i - 1;
    }
    Option::None
}

/// The first whitespace position in `v`.
pub fn find_first_ws_chars(v: &Vec<char>) -> (r: Option<usize>)
    ensures
        match r {
            Option::None => find_first_ws(v@) is None,
            Option::Some(p) => find_first_ws(v@) == Option::Some(p as int),
        },
{
    proof {
        lemma_find_first_ws(v@);
    }
    let len = v.len();
    let mut i: usize = 0;
    while i < len
        invariant
            0 <= i <= len,
            len == v@.len(),
            forall|j: int| 0 <= j < i ==> !is_ws(v@[j]),
        decreases len - i,
    {
        if is_ws_char(v[i]) {
            proof {
                lemma_find_first_ws(v@);
            }
            return Option::Some(i);
        }
        i = i + 1;
    }
    Option::None
}

/// The first non-whitespace position in `v`.
pub fn find_first_non_ws_chars(v: &Vec<char>) -> (r: Option<usize>)
    ensures
        match r {
            Option::None => find_first_non_ws(v@) is None,
            Option::Some(p) => find_first_non_ws(v@) == Option::Some(p as int),
        },
{
    proof {
        lemma_find_first_non_ws(v@);
    }
    let len = v.len();
    let mut i: usize = 0;
    while i < len
        invariant
            0 <= i <= len,
            len == v@.len(),
            forall|j: int| 0 <= j < i ==> is_ws(v@[j]),
        decreases len - i,
    {
        if !is_ws_char(v[i]) {
            proof {
                lemma_find_first_non_ws(v@);
            }
            return Option::Some(i);
        }
        i = i + 1;
    }
    Option::None
}

/// Whether two dotted paths hold the same names.
pub fn path_eq(a: &Vec<String>, b: &Vec<String>) -> (r: bool)
    ensures
        r == (a.deep_view() == b.deep_view()),
{
    if a.len() != b.len() {
        proof {
            assert(a.deep_view().len() == a@.len());
            assert(b.deep_view().len() == b@.len());
        }
        return false;
    }
    let len = a.len();
    let mut i: usize = 0;
    while i < len
        invariant
            0 <= i <= len,
            len == a@.len() && len == b@.len(),
            forall|j: int| 0 <= j < i ==> a.deep_view()[j] == b.deep_view()[j],
        decreases len - i,
    {
        if a[i] != b[i] {
            proof {
                assert(a.deep_view()[i as int] == a@[i as int]@);
                assert(b.deep_view()[i as int] == b@[i as int]@);
            }
            return false;
        }
        i = i + 1;
    }
    proof {
        assert(a.deep_view() =~= b.deep_view());
    }
    true
}

/// The concatenation of two character vectors.
pub fn concat_chars(a: &Vec<char>, b: &Vec<char>) -> (r: Vec<char>)
    ensures
        r@ == a@ + b@,
{
    let mut r: Vec<char> = Vec::new();
    let mut i: usize = 0;
    while i < a.len()
        invariant
            0 <= i <= a@.len(),
            r@ == a@.subrange(0, i as int),
        decreases a@.len() - i,
    {
        let c = a[i];
        r.push(c);
        proof {
            assert(r@ =~= a@.subrange(0, i + 1 as int));
        }
        i = i + 1;
    }
    let mut j: usize = 0;
    while j < b.len()
        invariant
            0 <= j <= b@.len(),
            r@ == a@.subrange(0, a@.len() as int) + b@.subrange(0, j as int),
        decreases b@.len() - j,
    {
        let c = b[j];
        r.push(c);
        proof {
            assert(r@ =~= a@.subrange(0, a@.len() as int) + b@.subrange(0, j + 1 as int));
        }
        j = j + 1;
    }
    proof {
        assert(a@.subrange(0, a@.len() as int) =~= a@);
        assert(b@.subrange(0, b@.len() as int) =~= b@);
        assert(r@ =~= a@ + b@);
    }
    r
}

/// A copy of a character vector.
pub fn copy_chars(a: &Vec<char>) -> (r: Vec<char>)
    ensures
        r@ == a@,
{
    let mut r: Vec<char> = Vec::new();
    let mut i: usize = 0;
    while i < a.len()
        invariant
            0 <= i <= a@.len(),
            r@ == a@.subrange(0, i as int),
        decreases a@.len() - i,
    {
        let c = a[i];
        r.push(c);
        proof {
            assert(r@ =~= a@.subrange(0, i + 1 as int));
        }
        i = i + 1;
    }
    proof {
        assert(r@ =~= a@);
    }
    r
}

} // verus!

verus! {

/// The copy of a subrange of a character vector.
pub fn subrange_chars(v: &Vec<char>, from: usize, to: usize) -> (r: Vec<char>)
    requires
        from <= to <= v@.len(),
    ensures
        r@ == v@.subrange(from as int, to as int),
{
    let mut r: Vec<char> = Vec::new();
    let mut i: usize = from;
    while i < to
        invariant
            from <= i <= to <= v@.len(),
            r@ == v@.subrange(from as int, i as int),
        decreases to - i,
    {
        let c = v[i];
        r.push(c);
        proof {
            assert(r@ =~= v@.subrange(from as int, i + 1 as int));
        }
        i = i + 1;
    }
    r
}

/// Trimming from the right keeps the prefix characters unchanged.
pub proof fn lemma_trim_right_prefix(s: Seq<char>)
    ensures
        trim_right(s).len() <= s.len(),
        forall|i: int| 0 <= i < trim_right(s).len() ==> trim_right(s)[i] == s[i],
    decreases s.len(),
{
    if s.len() > 0 && is_ws(s.last()) {
        lemma_trim_right_prefix(s.drop_last());
        assert(forall|i: int| 0 <= i < s.len() - 1 ==> s.drop_last()[i] == s[i]);
    }
}

/// A non-empty trimmed text starts and ends with non-whitespace.
pub proof fn lemma_trim_spec_ends(s: Seq<char>)
    ensures
        trim_spec(s).len() > 0 ==> !is_ws(trim_spec(s)[0]),
        trim_spec(s).len() > 0 ==> !is_ws(trim_spec(s).last()),
    decreases s.len(),
{
    let tl = trim_left(s);
    lemma_trim_left_first(s);
    lemma_trim_right_prefix(tl);
    lemma_trim_right_last(tl);
}

/// A non-empty left-trimmed text starts with non-whitespace.
proof fn lemma_trim_left_first(s: Seq<char>)
    ensures
        trim_left(s).len() > 0 ==> !is_ws(trim_left(s)[0]),
    decreases s.len(),
{
    if s.len() > 0 && is_ws(s[0]) {
        lemma_trim_left_first(s.drop_first());
    }
}

/// A non-empty right-trimmed text ends with non-whitespace.
proof fn lemma_trim_right_last(s: Seq<char>)
    ensures
        trim_right(s).len() > 0 ==> !is_ws(trim_right(s).last()),
    decreases s.len(),
{
    if s.len() > 0 && is_ws(s.last()) {
        lemma_trim_right_last(s.drop_last());
    }
}

} // verus!

verus! {

/// Whether two strings hold the same characters.
pub fn str_eq(a: &str, b: &str) -> (r: bool)
    ensures
        r == (a@ == b@),
{
    let av = chars_of_str(a);
    let bv = chars_of_str(b);
    if av.len() != bv.len() {
        return false;
    }
    let len = av.len();
    let mut i: usize = 0;
    while i < len
        invariant
            0 <= i <= len,
            len == av@.len() && len == bv@.len(),
            av@ == a@ && bv@ == b@,
            forall|j: int| 0 <= j < i ==> av@[j] == bv@[j],
        decreases len - i,
    {
        if av[i] != bv[i] {
            return false;
        }
        i = i + 1;
    }
    proof {
        assert(a@ =~= b@);
    }
    true
}

} // verus!
