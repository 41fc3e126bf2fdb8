//! What holds of a sidecar that is read: its numbers, and what each writer
//! did.

use vstd::prelude::*;

use crate::sidecar::{
    block_at, blocks_at, number_at, stories_at, story_at, Block, Story, CLOCK_END,
};

verus! {

/// A number as a sidecar holds it: seven bits in each byte, the lowest first,
/// and the top bit set in every byte but the last.
pub open spec fn written(n: nat) -> Seq<u8>
    decreases n,
{
    if n < 128 {
        seq![n as u8]
    } else {
        seq![(128 + n % 128) as u8] + written(n / 128)
    }
}

/// A number that is written is read back as it is, whatever stands before it
/// and behind.
pub proof fn lemma_number_reads_back(before: Seq<u8>, n: nat, behind: Seq<u8>, max: nat)
    requires
        written(n).len() <= max,
    ensures
        number_at(before + written(n) + behind, before.len() as int, max) == Some(
            (n, (before.len() + written(n).len()) as int),
        ),
    decreases n,
{
    let w = written(n);
    let all = before + w + behind;
    let i = before.len() as int;
    assert(w.len() > 0);
    assert(all[i] == w[0]);
    if n >= 128 {
        let low = (128 + n % 128) as u8;
        let rest = written(n / 128);
        lemma_number_reads_back(before.push(low), n / 128, behind, (max - 1) as nat);
        assert(before.push(low) + rest + behind =~= all);
    }
}

/// What one writer did comes without a gap: each of its blocks starts where
/// the one before it ended, has a change at least, and the story ends with
/// the last of them.
pub proof fn lemma_blocks_follow_each_other(
    b: Seq<u8>,
    i: int,
    n: nat,
    clock: nat,
    read: Seq<Block>,
)
    requires
        clock < CLOCK_END,
        in_a_row(read, clock as int),
    ensures
        blocks_at(b, i, n, clock, read) matches Some((blocks, end, _)) ==> {
            &&& blocks.len() == read.len() + n
            &&& in_a_row(blocks, end as int)
            &&& end < CLOCK_END
        },
    decreases n,
{
    if n > 0 {
        match block_at(b, i) {
            Some((what, len, j)) => {
                if clock + len < CLOCK_END {
                    lemma_block_has_changes(b, i);
                    lemma_blocks_follow_each_other(
                        b,
                        j,
                        (n - 1) as nat,
                        clock + len,
                        read.push(
                            Block { start: clock as u64, end: (clock + len) as u64, what },
                        ),
                    );
                }
            },
            None => {},
        }
    }
}

proof fn lemma_block_has_changes(b: Seq<u8>, i: int)
    ensures
        block_at(b, i) matches Some((_, len, _)) ==> len > 0,
{
}

/// Whether blocks follow each other from the first clock on up to a clock.
pub open spec fn in_a_row(blocks: Seq<Block>, end: int) -> bool {
    &&& forall|k: int| 0 <= k < blocks.len() ==> (#[trigger] blocks[k]).start < blocks[k].end
    &&& forall|k: int|
        0 <= k < blocks.len() - 1 ==> (#[trigger] blocks[k]).end == blocks[k + 1].start
    &&& blocks.len() > 0 ==> blocks[0].start == 0 && blocks.last().end == end
    &&& blocks.len() == 0 ==> end == 0
}

/// The writers come in falling order of their ids, so that none comes twice.
pub proof fn lemma_writers_come_once(b: Seq<u8>, i: int, n: nat, below: nat, read: Seq<Story>)
    requires
        falling(read, below as int),
    ensures
        stories_at(b, i, n, below, read) matches Some((all, _)) ==> {
            &&& all.len() == read.len() + n
            &&& forall|j: int, k: int|
                0 <= j < k < all.len() ==> (#[trigger] all[j]).client > (#[trigger] all[k]).client
        },
    decreases n,
{
    if n > 0 {
        match story_at(b, i) {
            Some((story, j)) => {
                if story.client < below {
                    lemma_writers_come_once(
                        b,
                        j,
                        (n - 1) as nat,
                        story.client as nat,
                        read.push(story),
                    );
                }
            },
            None => {},
        }
    }
}

/// Whether stories come in falling order of their writers' ids, none below
/// `last`.
pub open spec fn falling(all: Seq<Story>, last: int) -> bool {
    &&& forall|j: int, k: int|
        0 <= j < k < all.len() ==> (#[trigger] all[j]).client > (#[trigger] all[k]).client
    &&& forall|j: int| 0 <= j < all.len() ==> (#[trigger] all[j]).client >= last
}

} // verus!
