use vstd::prelude::*;

verus! {

/// Whether `c` has the Unicode `White_Space` property, written out as the
/// fixed list of code points that carry it.
pub open spec fn is_ws(c: char) -> bool {
    let u = c as u32;
    (9 <= u && u <= 13) || u == 32 || u == 0x85 || u == 0xA0 || u == 0x1680 || (0x2000 <= u
        && u <= 0x200A) || u == 0x2028 || u == 0x2029 || u == 0x202F || u == 0x205F || u == 0x3000
}

/// Whether `c` is a whitespace character, per `is_ws`.
pub fn is_whitespace_char(c: char) -> (r: bool)
    ensures
        r == is_ws(c),
{
    let u = c as u32;
    (9 <= u && u <= 13) || u == 32 || u == 0x85 || u == 0xA0 || u == 0x1680 || (0x2000 <= u
        && u <= 0x200A) || u == 0x2028 || u == 0x2029 || u == 0x202F || u == 0x205F || u == 0x3000
}

/// The lowercase form of a character sequence, as `str::to_lowercase`
/// computes it; it depends on the characters alone.
pub uninterp spec fn lower_of(s: Seq<char>) -> Seq<char>;

/// Relies on str::to_lowercase: the result is the lowercase form of the
/// input and depends on the input characters alone.
#[verifier::external_body]
pub(crate) fn lower_string(chars: &Vec<char>) -> (r: String)
    ensures
        r@ == lower_of(chars@),
{
    let s: String = chars.iter().collect();
    s.to_lowercase()
}

/// Relies on String::from for char: a string holding exactly the one
/// character given.
#[verifier::external_body]
pub(crate) fn char_string(c: char) -> (r: String)
    ensures
        r@ == seq![c],
{
    String::from(c)
}

/// Whether two string slices hold the same characters.
pub fn str_eq(a: &str, b: &str) -> (r: bool)
    ensures
        r == (a@ == b@),
{
    let an = a.unicode_len();
    let bn = b.unicode_len();
    if an != bn {
        return false;
    }
    let mut k: usize = 0;
    while k < an
        invariant
            an == a@.len(),
            an == b@.len(),
            k <= an,
            forall|j: int| 0 <= j < k ==> a@[j] == b@[j],
        decreases an - k,
    {
        if a.get_char(k) != b.get_char(k) {
            return false;
        }
        k += 1;
    }
    proof {
        assert(a@ =~= b@);
    }
    true
}

/// Whether the vector holds the character `c`.
pub fn vec_contains_char(v: &Vec<char>, c: char) -> (r: bool)
    ensures
        r == v@.contains(c),
{
    let mut k: usize = 0;
    while k < v.len()
        invariant
            k <= v@.len(),
            forall|j: int| 0 <= j < k ==> v@[j] != c,
        decreases v@.len() - k,
    {
        if v[k] == c {
            return true;
        }
        k += 1;
    }
    false
}

/// Pushing onto a vector pushes the element's view onto the deep view.
pub proof fn lemma_push_deep_view<T: DeepView>(old_v: Vec<T>, new_v: Vec<T>, x: T)
    requires
        new_v@ == old_v@.push(x),
    ensures
        new_v.deep_view() =~= old_v.deep_view().push(x.deep_view()),
{
    assert forall|i: int| 0 <= i < new_v.deep_view().len() implies new_v.deep_view()[i]
        == old_v.deep_view().push(x.deep_view())[i] by {
        if i < old_v@.len() {
            assert(new_v@[i] == old_v@[i]);
        } else {
            assert(new_v@[i] == x);
        }
    }
}

} // verus!
