//! The flips of the coin that decide how high a new node gets.

use vstd::prelude::*;

verus! {

/// The number of flips that come up heads before the first that does not.
pub open spec fn leading_heads(flips: Seq<bool>) -> nat
    decreases flips.len(),
{
    if flips.len() == 0 || !flips[0] {
        0
    } else {
        1 + leading_heads(flips.skip(1))
    }
}

/// The height that the flips give under a ceiling: 1, raised by one for
/// every flip that comes up heads, until one does not, the flips end or the
/// ceiling is reached. Under a ceiling of 0 it is 1 as well.
pub open spec fn level_for(flips: Seq<bool>, max_level: usize) -> usize {
    if max_level <= 1 {
        1
    } else if 1 + leading_heads(flips) > max_level {
        max_level
    } else {
        (1 + leading_heads(flips)) as usize
    }
}

/// The number of flips that are read for that height: the heads and the
/// flip that ends them, but no flip once the ceiling is reached, and no more
/// than there are.
pub open spec fn flips_read(flips: Seq<bool>, max_level: usize) -> int {
    if max_level <= 1 {
        0
    } else {
        let wanted: int = if leading_heads(flips) + 1 > max_level - 1 {
            max_level - 1
        } else {
            leading_heads(flips) as int + 1
        };
        if wanted > flips.len() {
            flips.len() as int
        } else {
            wanted
        }
    }
}

/// The flips are those of one drawing under the ceiling: heads up to the
/// last flip, which is the first tails or the flip that reaches the ceiling.
pub open spec fn complete_draw(flips: Seq<bool>, max_level: usize) -> bool {
    if max_level <= 1 {
        flips.len() == 0
    } else {
        &&& 1 <= flips.len() <= max_level - 1
        &&& forall|i: int| 0 <= i < flips.len() - 1 ==> #[trigger] flips[i]
        &&& flips.len() == max_level - 1 || !flips[flips.len() - 1]
    }
}

/// Behind `n` heads, the heads of the rest are counted on.
pub proof fn lemma_heads_then(flips: Seq<bool>, n: int)
    requires
        0 <= n <= flips.len(),
        forall|i: int| 0 <= i < n ==> #[trigger] flips[i],
    ensures
        leading_heads(flips) == n + leading_heads(flips.skip(n)),
    decreases n,
{
    if n == 0 {
        assert(flips.skip(0) =~= flips);
    } else {
        let rest = flips.skip(1);
        assert(flips[0]);
        assert forall|i: int| 0 <= i < n - 1 implies #[trigger] rest[i] by {
            assert(flips[i + 1]);
        }
        lemma_heads_then(rest, n - 1);
        assert(rest.skip(n - 1) =~= flips.skip(n));
    }
}

/// No more flips come up heads than there are.
pub proof fn lemma_heads_at_most(flips: Seq<bool>)
    ensures
        leading_heads(flips) <= flips.len(),
    decreases flips.len(),
{
    if flips.len() > 0 && flips[0] {
        lemma_heads_at_most(flips.skip(1));
    }
}

/// The height is at least 1 and stays under a ceiling of 1 or more; no flip
/// is read once the ceiling is reached, and the height rises by no more
/// than the flips that are read.
pub proof fn lemma_level_in_range(flips: Seq<bool>, max_level: usize)
    ensures
        1 <= level_for(flips, max_level),
        level_for(flips, max_level) <= max_level || level_for(flips, max_level) == 1,
        0 <= flips_read(flips, max_level) <= flips.len(),
        max_level >= 1 ==> flips_read(flips, max_level) <= max_level - 1,
        level_for(flips, max_level) <= 1 + flips_read(flips, max_level),
{
    lemma_heads_at_most(flips);
}

/// All the flips of one drawing are read.
pub proof fn lemma_complete_draw_is_read(flips: Seq<bool>, max_level: usize)
    requires
        complete_draw(flips, max_level),
    ensures
        flips_read(flips, max_level) == flips.len(),
{
    if max_level > 1 {
        let last = flips.len() - 1;
        lemma_heads_then(flips, last);
        let rest = flips.skip(last);
        assert(rest[0] == flips[last]);
        if flips[last] {
            assert(rest.skip(1).len() == 0);
        }
    }
}

/// A machine word drawn by `rand::random` from the thread's generator.
/// Nothing is claimed of the word: every call may return another one.
#[verifier::external_body]
pub(crate) fn random_word() -> (word: usize) {
    rand::random::<usize>()
}

/// Whether a random word counts as a flip that came up heads: the odd words
/// do.
pub fn is_heads(word: usize) -> (heads: bool)
    ensures
        heads == (word % 2 == 1),
{
    word % 2 == 1
}

/// The height that the flips give under the ceiling, and the number of
/// flips that were read for it, from the front.
pub fn level_from_flips(flips: &Vec<bool>, max_level: usize) -> (r: (usize, usize))
    ensures
        r.0 == level_for(flips@, max_level),
        r.1 == flips_read(flips@, max_level),
{
    let mut level: usize = 1;
    let mut read: usize = 0;
    loop
        invariant_except_break
            level == 1 + read,
            read <= flips@.len(),
            level <= max_level || read == 0,
            forall|i: int| 0 <= i < read ==> #[trigger] flips@[i],
        ensures
            level == level_for(flips@, max_level),
            read == flips_read(flips@, max_level),
        decreases flips@.len() - read,
    {
        if level >= max_level || read >= flips.len() {
            proof {
                lemma_heads_then(flips@, read as int);
            }
            break ;
        }
        let heads = flips[read];
        read = read + 1;
        if !heads {
            proof {
                lemma_heads_then(flips@, read - 1);
                assert(flips@.skip(read - 1)[0] == flips@[read - 1]);
            }
            break ;
        }
        level = level + 1;
    }
    (level, read)
}

/// Flips the coin for one new node: until it comes up tails, or as often as
/// the ceiling lets the height rise. Each flip is one random word.
pub(crate) fn draw_flips(max_level: usize) -> (flips: Vec<bool>)
    ensures
        complete_draw(flips@, max_level),
{
    let mut flips: Vec<bool> = Vec::new();
    let mut level: usize = 1;
    loop
        invariant_except_break
            level == 1 + flips@.len(),
            level <= max_level || flips@.len() == 0,
            forall|i: int| 0 <= i < flips@.len() ==> #[trigger] flips@[i],
        ensures
            complete_draw(flips@, max_level),
        decreases max_level - level,
    {
        if level >= max_level {
            break ;
        }
        let heads = is_heads(random_word());
        flips.push(heads);
        if !heads {
            break ;
        }
        level = level + 1;
    }
    flips
}

} // verus!
