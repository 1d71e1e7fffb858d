use vstd::prelude::*;

pub mod centrality;
pub mod graph;

verus! {

/// One purchase record. The graph and the centrality scores read only
/// `item_purchased` (the item's identifier), `category` and `season` (the
/// segment label); the other fields are carried along unread.
#[derive(Clone, Debug, Default)]
pub struct Item {
    pub customer_id: usize,
    pub age: usize,
    pub gender: bool,
    pub item_purchased: String,
    pub category: String,
    pub purchase_amount: usize,
    pub location: String,
    pub size: String,
    pub color: String,
    pub season: String,
    pub review_rating: usize,
    pub subscription_status: bool,
    pub shipping_type: String,
    pub discount_applied: bool,
    pub promo_code_used: bool,
    pub previous_purchases: usize,
    pub payment_method: String,
    pub preferred_payment_method: String,
    pub frequency_of_purchases: String,
    pub edges: Vec<String>,
}

/// The distinct values of `s`, each where it first occurs.
pub open spec fn first_occurrences(s: Seq<Seq<char>>) -> Seq<Seq<char>>
    decreases s.len(),
{
    if s.len() == 0 {
        Seq::empty()
    } else {
        let prev = first_occurrences(s.drop_last());
        if prev.contains(s.last()) {
            prev
        } else {
            prev.push(s.last())
        }
    }
}

/// `first_occurrences` holds each value of `s` exactly once, and nothing else.
pub proof fn lemma_first_occurrences(s: Seq<Seq<char>>)
    ensures
        first_occurrences(s).no_duplicates(),
        forall|x: Seq<char>| first_occurrences(s).contains(x) <==> s.contains(x),
    decreases s.len(),
{
    if s.len() > 0 {
        let prev = s.drop_last();
        lemma_first_occurrences(prev);
        assert forall|x: Seq<char>| s.contains(x) <==> (prev.contains(x) || x == s.last()) by {
            if s.contains(x) {
                let k = choose|k: int| 0 <= k < s.len() && s[k] == x;
                if k < s.len() - 1 {
                    assert(prev[k] == x);
                }
            }
            if prev.contains(x) {
                let k = choose|k: int| 0 <= k < prev.len() && prev[k] == x;
                assert(s[k] == x);
            }
            if x == s.last() {
                assert(s[s.len() - 1] == x);
            }
        }
        let fo = first_occurrences(prev);
        if !fo.contains(s.last()) {
            assert forall|x: Seq<char>| fo.push(s.last()).contains(x) <==> (fo.contains(x) || x
                == s.last()) by {
                if fo.push(s.last()).contains(x) {
                    let k = choose|k: int| 0 <= k < fo.len() + 1 && fo.push(s.last())[k] == x;
                    if k < fo.len() {
                        assert(fo[k] == x);
                    }
                }
                if fo.contains(x) {
                    let k = choose|k: int| 0 <= k < fo.len() && fo[k] == x;
                    assert(fo.push(s.last())[k] == x);
                }
                if x == s.last() {
                    assert(fo.push(s.last())[fo.len() as int] == x);
                }
            }
        }
    }
}

/// Where `v` holds `s`, if it does.
pub fn position_of(v: &Vec<String>, s: &String) -> (r: Option<usize>)
    ensures
        match r {
            Some(k) => k < v.len() && v@[k as int]@ == s@,
            None => forall|k: int| 0 <= k < v.len() ==> v@[k]@ != s@,
        },
{
    let mut i: usize = 0;
    while i < v.len()
        invariant
            i <= v.len(),
            forall|k: int| 0 <= k < i ==> v@[k]@ != s@,
        decreases v.len() - i,
    {
        if v[i] == *s {
            return Some(i);
        }
        i = i + 1;
    }
    None
}

} // verus!
