//! The search-directory and pattern lists each come from two command-line
//! sources: a shared list and a kind-specific one. The effective list is a
//! stable merge of the two by original command-line position.
use vstd::prelude::*;

verus! {

/// Stable merge of two position-tagged lists: at each step the head with the
/// strictly smaller position is taken; on a tie the second list's head wins.
pub open spec fn merge_spec<T>(a: Seq<(u64, T)>, b: Seq<(u64, T)>) -> Seq<(u64, T)>
    decreases a.len() + b.len(),
{
    if a.len() == 0 {
        b
    } else if b.len() == 0 {
        a
    } else if a[0].0 < b[0].0 {
        seq![a[0]] + merge_spec(a.drop_first(), b)
    } else {
        seq![b[0]] + merge_spec(a, b.drop_first())
    }
}

/// Merges two lists of values tagged with their original command-line
/// positions into one list in command-line order.
pub fn merge_by_cli_order<T>(a: Vec<(u64, T)>, b: Vec<(u64, T)>) -> (r: Vec<(u64, T)>)
    ensures
        r@ == merge_spec(a@, b@),
{
    let mut a = a;
    let mut b = b;
    let ghost a0 = a@;
    let ghost b0 = b@;
    let mut r: Vec<(u64, T)> = Vec::new();
    proof {
        assert(r@ + merge_spec(a@, b@) =~= merge_spec(a@, b@));
    }
    while a.len() > 0 || b.len() > 0
        invariant
            r@ + merge_spec(a@, b@) == merge_spec(a0, b0),
        decreases a.len() + b.len(),
    {
        let ghost prev_r = r@;
        let ghost prev_a = a@;
        let ghost prev_b = b@;
        if a.len() == 0 {
            let x = b.remove(0);
            r.push(x);
            proof {
                assert(prev_b =~= seq![prev_b[0]] + b@);
                assert(prev_r + (seq![prev_b[0]] + merge_spec(prev_a, b@)) =~= r@ + merge_spec(
                    a@,
                    b@,
                ));
                assert(merge_spec(prev_a, prev_b) =~= seq![prev_b[0]] + merge_spec(prev_a, b@));
            }
        } else if b.len() == 0 {
            let x = a.remove(0);
            r.push(x);
            proof {
                assert(prev_a =~= seq![prev_a[0]] + a@);
                assert(prev_r + (seq![prev_a[0]] + merge_spec(a@, prev_b)) =~= r@ + merge_spec(
                    a@,
                    b@,
                ));
                assert(merge_spec(prev_a, prev_b) =~= seq![prev_a[0]] + merge_spec(a@, prev_b));
            }
        } else if a[0].0 < b[0].0 {
            let x = a.remove(0);
            r.push(x);
            proof {
                assert(prev_a =~= seq![prev_a[0]] + a@);
                assert(prev_r + (seq![prev_a[0]] + merge_spec(a@, prev_b)) =~= r@ + merge_spec(
                    a@,
                    b@,
                ));
            }
        } else {
            let x = b.remove(0);
            r.push(x);
            proof {
                assert(prev_b =~= seq![prev_b[0]] + b@);
                assert(prev_r + (seq![prev_b[0]] + merge_spec(prev_a, b@)) =~= r@ + merge_spec(
                    a@,
                    b@,
                ));
            }
        }
    }
    proof {
        assert(r@ + merge_spec(a@, b@) =~= r@);
    }
    r
}

} // verus!
