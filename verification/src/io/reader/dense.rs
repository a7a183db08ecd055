//! Links that are packed one behind the other in the blocks of a heap.

use vstd::prelude::*;

verus! {

/// The version byte that a link message begins with.
pub const LINK_VERSION: u8 = 1;

/// Whether a link message can begin at `pos` of a block.
pub open spec fn begins_link(payload: Seq<u8>, pos: int) -> bool {
    0 <= pos < payload.len() && payload[pos] == LINK_VERSION
}

/// Where a link message begins at `pos`, if one does.
pub open spec fn link_start(payload: Seq<u8>, pos: int) -> Option<usize> {
    if begins_link(payload, pos) {
        Some(pos as usize)
    } else {
        None
    }
}

/// What becomes of the bytes at which a link message was tried.
#[derive(Debug, Clone, Copy, PartialEq, Eq, Structural)]
pub struct LinkStep {
    /// Whether there is a link.
    pub keep: bool,
    /// Where the next link is tried, if there is one.
    pub next: Option<usize>,
}

/// What follows when the bytes at `pos` were decoded as a link of so many bytes, or could
/// not be decoded. The first bytes that are no link end the block: what follows is free
/// space or something else.
pub open spec fn link_step(payload: Seq<u8>, pos: int, consumed: Option<usize>) -> LinkStep {
    match consumed {
        Some(n) => if n > 0 {
            LinkStep { keep: true, next: link_start(payload, pos + n) }
        } else {
            LinkStep { keep: false, next: None }
        },
        None => LinkStep { keep: false, next: None },
    }
}

/// Where the first link of a block is tried.
pub fn first_link(payload: &[u8]) -> (r: Option<usize>)
    ensures
        r == link_start(payload@, 0),
{
    if payload.len() > 0 && payload[0] == LINK_VERSION {
        Some(0)
    } else {
        None
    }
}

/// Go on behind the bytes at `pos`, of which `consumed` were a link.
pub fn next_link(payload: &[u8], pos: usize, consumed: Option<usize>) -> (r: LinkStep)
    requires
        pos < payload@.len(),
    ensures
        r == link_step(payload@, pos as int, consumed),
        r.next matches Some(p) ==> pos < p < payload@.len(),
{
    match consumed {
        Some(n) => if n == 0 {
            LinkStep { keep: false, next: None }
        } else if n < payload.len() - pos && payload[pos + n] == LINK_VERSION {
            LinkStep { keep: true, next: Some(pos + n) }
        } else {
            LinkStep { keep: true, next: None }
        },
        None => LinkStep { keep: false, next: None },
    }
}

/// Where link `k` of a block is tried, when the links have these sizes.
pub open spec fn link_place(payload: Seq<u8>, sizes: Seq<Option<usize>>, k: nat) -> Option<usize>
    decreases k,
{
    if k == 0 {
        link_start(payload, 0)
    } else {
        match link_place(payload, sizes, (k - 1) as nat) {
            Some(p) => link_step(payload, p as int, sizes[k - 1]).next,
            None => None,
        }
    }
}

/// How many bytes `n` links take.
pub open spec fn links_len(links: Seq<Seq<u8>>, n: nat) -> nat
    decreases n,
{
    if n == 0 {
        0
    } else {
        links_len(links, (n - 1) as nat) + links[n - 1].len()
    }
}

/// Links that were packed into a block are all found again, each where it begins, whatever
/// comes behind them.
pub proof fn lemma_packed_links(payload: Seq<u8>, links: Seq<Seq<u8>>, k: nat)
    requires
        payload.len() <= usize::MAX,
        links_len(links, links.len()) <= payload.len(),
        forall|j: int|
            0 <= j < links.len() ==> {
                &&& (#[trigger] links[j]).len() > 0
                &&& links[j][0] == LINK_VERSION
                &&& payload.subrange(
                    links_len(links, j as nat) as int,
                    (links_len(links, j as nat) + links[j].len()) as int,
                ) == links[j]
            },
        k < links.len(),
    ensures
        link_place(
            payload,
            Seq::new(links.len(), |j: int| Some(links[j].len() as usize)),
            k,
        ) == Some(links_len(links, k) as usize),
        links_len(links, k) + links[k as int].len() <= payload.len(),
    decreases k,
{
    let at = links_len(links, k) as int;
    lemma_links_len(links, (k + 1) as nat, links.len());
    assert(payload.subrange(at, at + links[k as int].len()) == links[k as int]);
    assert(payload[at] == payload.subrange(at, at + links[k as int].len())[0]);
    if k > 0 {
        lemma_packed_links(payload, links, (k - 1) as nat);
    }
}

proof fn lemma_links_len(links: Seq<Seq<u8>>, a: nat, b: nat)
    requires
        a <= b,
    ensures
        links_len(links, a) <= links_len(links, b),
    decreases b,
{
    if a < b {
        lemma_links_len(links, a, (b - 1) as nat);
    }
}

} // verus!
