//! The order in which names are compared where one of several has to be
//! picked: by the code points of their characters, the shorter of two first
//! where one begins the other.

use vstd::prelude::*;

verus! {

/// Whether `a` and `b` agree on their first `i` characters.
pub open spec fn same_prefix(a: Seq<char>, b: Seq<char>, i: int) -> bool {
    &&& 0 <= i <= a.len()
    &&& i <= b.len()
    &&& forall|j: int| 0 <= j < i ==> a[j] == b[j]
}

/// Whether `a` comes before `b` and position `i` shows it: the two agree
/// before `i`, and there `a` ends or has the smaller character.
pub open spec fn lt_at(a: Seq<char>, b: Seq<char>, i: int) -> bool {
    &&& same_prefix(a, b, i)
    &&& i < b.len()
    &&& i < a.len() ==> (a[i] as int) < (b[i] as int)
}

/// Whether `a` comes strictly before `b`.
pub open spec fn name_lt(a: Seq<char>, b: Seq<char>) -> bool {
    exists|i: int| lt_at(a, b, i)
}

/// Two names that agree on `i` characters are equal or one comes before
/// the other.
pub proof fn lemma_name_total_from(a: Seq<char>, b: Seq<char>, i: int)
    requires
        same_prefix(a, b, i),
    ensures
        a == b || name_lt(a, b) || name_lt(b, a),
    decreases a.len() - i,
{
    if i == a.len() && i == b.len() {
        assert(a =~= b);
    } else if i == a.len() {
        assert(lt_at(a, b, i));
    } else if i == b.len() {
        assert(lt_at(b, a, i));
    } else if a[i] == b[i] {
        lemma_name_total_from(a, b, i + 1);
    } else if (a[i] as int) < (b[i] as int) {
        assert(lt_at(a, b, i));
    } else {
        assert(lt_at(b, a, i));
    }
}

/// Of two different names one comes before the other.
pub proof fn lemma_name_total(a: Seq<char>, b: Seq<char>)
    ensures
        a == b || name_lt(a, b) || name_lt(b, a),
{
    lemma_name_total_from(a, b, 0);
}

/// The order is transitive.
pub proof fn lemma_name_transitive(a: Seq<char>, b: Seq<char>, c: Seq<char>)
    requires
        name_lt(a, b),
        name_lt(b, c),
    ensures
        name_lt(a, c),
{
    let i = choose|i: int| lt_at(a, b, i);
    let j = choose|j: int| lt_at(b, c, j);
    if i <= j {
        assert(lt_at(a, c, i));
    } else {
        assert(lt_at(a, c, j));
    }
}

/// No name comes before itself, and no two come before each other.
pub proof fn lemma_name_asymmetric(a: Seq<char>, b: Seq<char>)
    ensures
        !(name_lt(a, b) && name_lt(b, a)),
{
    if name_lt(a, b) && name_lt(b, a) {
        let i = choose|i: int| lt_at(a, b, i);
        let j = choose|j: int| lt_at(b, a, j);
        if i < j {
            assert(b[i] == a[i]);
        } else if j < i {
            assert(a[j] == b[j]);
        }
    }
}

/// Whether `a` comes strictly before `b`.
pub fn name_less(a: &String, b: &String) -> (r: bool)
    ensures
        r == name_lt(a@, b@),
{
    let x = a.as_str();
    let y = b.as_str();
    let n = x.unicode_len();
    let m = y.unicode_len();
    let mut i: usize = 0;
    while i < n && i < m
        invariant
            n == a@.len(),
            m == b@.len(),
            x@ == a@,
            y@ == b@,
            same_prefix(a@, b@, i as int),
        decreases n - i,
    {
        let c = x.get_char(i);
        let d = y.get_char(i);
        if c != d {
            let less = (c as u32) < (d as u32);
            proof {
                if less {
                    assert(lt_at(a@, b@, i as int));
                } else {
                    assert(lt_at(b@, a@, i as int));
                    lemma_name_asymmetric(a@, b@);
                }
            }
            return less;
        }
        i += 1;
    }
    proof {
        if i < m {
            assert(lt_at(a@, b@, i as int));
        } else if i < n {
            assert(lt_at(b@, a@, i as int));
            lemma_name_asymmetric(a@, b@);
        } else {
            assert(a@ =~= b@);
            lemma_name_asymmetric(a@, a@);
        }
    }
    i < m
}

} // verus!
