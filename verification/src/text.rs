//! Comparing text.

use vstd::prelude::*;
use vstd::utf8::encode_utf8;

verus! {

/// Whether two texts hold the same characters.
pub fn same_text(a: &str, b: &str) -> (r: bool)
    ensures
        r == (a@ == b@),
{
    let x: &[u8] = a.as_bytes();
    let y: &[u8] = b.as_bytes();
    proof {
        vstd::utf8::encode_utf8_decode_utf8(a@);
        vstd::utf8::encode_utf8_decode_utf8(b@);
    }
    if x.len() != y.len() {
        return false;
    }
    let mut i: usize = 0;
    while i < x.len()
        invariant
            i <= x@.len(),
            x@.len() == y@.len(),
            x@ == encode_utf8(a@),
            y@ == encode_utf8(b@),
            forall|j: int| 0 <= j < i ==> x@[j] == y@[j],
        decreases x.len() - i,
    {
        if x[i] != y[i] {
            return false;
        }
        i += 1;
    }
    proof { assert(x@ =~= y@); }
    true
}

/// The position of the first name that reads like this.
pub open spec fn find_name(names: Seq<String>, name: Seq<char>, n: nat) -> Option<int>
    decreases n,
{
    if n == 0 {
        None
    } else {
        match find_name(names, name, (n - 1) as nat) {
            Some(i) => Some(i),
            None => if names[n - 1]@ == name { Some(n - 1) } else { None },
        }
    }
}

/// The position of a name in a list.
pub fn position_of(names: &Vec<String>, name: &str) -> (r: Option<usize>)
    ensures
        r matches Some(i) ==> find_name(names@, name@, names@.len()) == Some(i as int) && i < names@.len() && names@[i as int]@
            == name@,
        r is None ==> find_name(names@, name@, names@.len()) is None,
{
    let mut i: usize = 0;
    while i < names.len()
        invariant
            i <= names@.len(),
            find_name(names@, name@, i as nat) is None,
        decreases names.len() - i,
    {
        if same_text(names[i].as_str(), name) {
            proof { lemma_found(names@, name@, (i + 1) as nat, names@.len(), i as int); }
            return Some(i);
        }
        i += 1;
    }
    None
}

proof fn lemma_found(names: Seq<String>, name: Seq<char>, m: nat, n: nat, i: int)
    requires
        m <= n,
        find_name(names, name, m) == Some(i),
    ensures
        find_name(names, name, n) == Some(i),
    decreases n,
{
    if m < n {
        lemma_found(names, name, m, (n - 1) as nat, i);
    }
}

} // verus!
