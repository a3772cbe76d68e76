//! Reading the human's reply to "Stick or Twist?".
use crate::blackjack::Action;
use vstd::prelude::*;
use vstd::string::StrSliceExecFns;

verus! {

/// The lowercase form of a text, as `str::to_lowercase` gives it.
pub uninterp spec fn lower_of(s: Seq<char>) -> Seq<char>;

/// Relies on `str::to_lowercase`: the lowercase form depends on the text's
/// characters alone, and the empty text stays empty.
#[verifier::external_body]
fn lowercase(s: &str) -> (r: String)
    ensures
        r@ == lower_of(s@),
        s@.len() == 0 ==> r@.len() == 0,
{
    s.to_lowercase()
}

/// Whether `word` occurs in `text` as a run of consecutive characters.
pub open spec fn occurs_in(word: Seq<char>, text: Seq<char>) -> bool {
    exists|i: int| 0 <= i && i + word.len() <= text.len() && #[trigger] text.subrange(i, i + word.len()) == word
}

/// The actions a lowercase reply asks for: a hit if it holds "twist", then
/// standing if it holds "stick".
pub open spec fn actions_named(lower: Seq<char>) -> Seq<Action> {
    (if occurs_in("twist"@, lower) { seq![Action::Hit] } else { Seq::empty() }) + (if occurs_in("stick"@, lower) {
        seq![Action::Stand]
    } else {
        Seq::empty()
    })
}

/// Whether `word` occurs in `text`.
pub fn occurs(word: &str, text: &str) -> (r: bool)
    ensures
        r == occurs_in(word@, text@),
{
    let n = text.unicode_len();
    let m = word.unicode_len();
    if m > n {
        return false;
    }
    let mut i: usize = 0;
    while i <= n - m
        invariant
            n == text@.len(),
            m == word@.len(),
            m <= n,
            i <= n - m + 1,
            forall|p: int| 0 <= p < i ==> #[trigger] text@.subrange(p, p + m) != word@,
        decreases n - i,
    {
        let mut j: usize = 0;
        let mut same = true;
        while j < m && same
            invariant
                n == text@.len(),
                m == word@.len(),
                i + m <= n,
                j <= m,
                same <==> forall|q: int| 0 <= q < j ==> text@[i + q] == word@[q],
            decreases m - j,
        {
            if text.get_char(i + j) != word.get_char(j) {
                same = false;
            }
            j = j + 1;
        }
        if same {
            assert(text@.subrange(i as int, i + m as int) =~= word@);
            return true;
        }
        proof {
            let q = choose|q: int| 0 <= q < j && text@[i + q] != word@[q];
            assert(text@.subrange(i as int, i + m)[q] != word@[q]);
        }
        i = i + 1;
    }
    proof {
        assert forall|p: int| 0 <= p && p + m <= n implies #[trigger] text@.subrange(p, p + m) != word@ by {
            assert(p < i);
        }
    }
    false
}

/// The actions an already lowercased reply asks for.
pub fn actions_in_lowercase(lower: &str) -> (r: Vec<Action>)
    ensures
        r@ == actions_named(lower@),
{
    let mut actions: Vec<Action> = Vec::new();
    if occurs("twist", lower) {
        actions.push(Action::Hit);
    }
    if occurs("stick", lower) {
        actions.push(Action::Stand);
    }
    assert(actions@ =~= actions_named(lower@));
    actions
}

/// The actions a reply asks for, read without regard to case: a hit for
/// "twist", then standing for "stick"; none when it holds neither.
pub fn actions_in_reply(reply: &str) -> (r: Vec<Action>)
    ensures
        r@ == actions_named(lower_of(reply@)),
{
    let lower = lowercase(reply);
    actions_in_lowercase(lower.as_str())
}

} // verus!
