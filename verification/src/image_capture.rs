//! What happens to the local images of a rendered Markdown document.
//!
//! Only the first 32 images of a side are captured, and only when the side
//! has a revision or index to read them from; the others say why they are
//! missing. Decoded pixels share one budget per side: an image that does not
//! fit, or comes once the budget is spent, is refused. Images read from the
//! working tree get a notice that they are no atomic snapshot.
use vstd::prelude::*;
use crate::markdown_blocks::{block_view, block_views, Block, BlockKind, BlockView, KindView, MAX_BLOCKS};

verus! {

/// The most images of one side that are captured.
pub const MAX_PREVIEW_ASSETS: usize = 32;

/// The decoded pixels one side may hold, in bytes.
pub const PIXEL_BUDGET: usize = 16_777_216;

/// What is done with one image of a side.
#[derive(Clone, Copy, Debug, PartialEq, Eq, Structural)]
pub enum ImageStep {
    /// Past the 32nd image: not captured.
    Limited,
    /// The side has no revision or index to read images from.
    NoScope,
    /// Read from the side's revision or index.
    Capture,
}

/// The step for image `k` of a side.
pub open spec fn step_of(k: int, scope_known: bool) -> ImageStep {
    if k >= MAX_PREVIEW_ASSETS {
        ImageStep::Limited
    } else if !scope_known {
        ImageStep::NoScope
    } else {
        ImageStep::Capture
    }
}

/// The steps for the images of a side, in order.
pub open spec fn plan(images: nat, scope_known: bool) -> Seq<ImageStep> {
    Seq::new(images, |k: int| step_of(k, scope_known))
}

/// The steps for the `images` images of a side.
pub fn image_plan(images: usize, scope_known: bool) -> (r: Vec<ImageStep>)
    ensures
        r@ == plan(images as nat, scope_known),
{
    let mut r: Vec<ImageStep> = Vec::new();
    let mut k: usize = 0;
    while k < images
        invariant
            k <= images,
            r@ == plan(k as nat, scope_known),
        decreases images - k,
    {
        let step = if k >= MAX_PREVIEW_ASSETS {
            ImageStep::Limited
        } else if !scope_known {
            ImageStep::NoScope
        } else {
            ImageStep::Capture
        };
        r.push(step);
        proof {
            assert(r@ =~= plan((k + 1) as nat, scope_known));
        }
        k = k + 1;
    }
    r
}

pub open spec fn limited_message() -> Seq<char> {
    "The 32 local-image limit was reached; exact source remains available."@
}

pub open spec fn no_scope_message() -> Seq<char> {
    "No captured revision/index scope is available for this local image."@
}

pub open spec fn budget_message() -> Seq<char> {
    "Markdown images exceed the 16 MiB decoded-pixel budget"@
}

pub open spec fn worktree_message() -> Seq<char> {
    "Local images are captured from tracked working files now; this is not an atomic snapshot of the whole worktree."@
}

/// Why an image is shown without pixels before anything is read: past the
/// limit, or without a scope. A captured image has no such reason.
pub fn step_error(step: ImageStep) -> (r: Option<String>)
    ensures
        step == ImageStep::Limited ==> (r matches Some(m) && m@ == limited_message()),
        step == ImageStep::NoScope ==> (r matches Some(m) && m@ == no_scope_message()),
        step == ImageStep::Capture ==> r is None,
{
    match step {
        ImageStep::Limited => Some(
            "The 32 local-image limit was reached; exact source remains available.".to_owned(),
        ),
        ImageStep::NoScope => Some(
            "No captured revision/index scope is available for this local image.".to_owned(),
        ),
        ImageStep::Capture => None,
    }
}

/// The error when the decoded pixels of an image are refused.
pub fn budget_error() -> (r: String)
    ensures
        r@ == budget_message(),
{
    "Markdown images exceed the 16 MiB decoded-pixel budget".to_owned()
}

/// Whether an image may still be decoded: the budget is not spent.
pub fn may_decode(budget: usize) -> (r: bool)
    ensures
        r == (budget > 0),
{
    budget > 0
}

/// Whether an image whose decoded pixels take `bytes` is kept, and the
/// budget left after it: kept when the budget is not spent and the pixels
/// fit in it, which they then use up.
pub fn admit_decoded(budget: usize, bytes: usize) -> (r: (bool, usize))
    ensures
        r == if budget > 0 && bytes <= budget {
            (true, (budget - bytes) as usize)
        } else {
            (false, budget)
        },
{
    if budget > 0 && bytes <= budget {
        (true, budget - bytes)
    } else {
        (false, budget)
    }
}

pub open spec fn is_image(b: BlockView) -> bool {
    b.kind is Image
}

/// The positions of the image blocks, in order.
pub open spec fn image_positions(blocks: Seq<BlockView>) -> Seq<int>
    decreases blocks.len(),
{
    if blocks.len() == 0 {
        seq![]
    } else if is_image(blocks.last()) {
        image_positions(blocks.drop_last()).push(blocks.len() - 1)
    } else {
        image_positions(blocks.drop_last())
    }
}

pub open spec fn usizes_view(v: Seq<usize>) -> Seq<int> {
    v.map_values(|i: usize| i as int)
}

/// The positions of the image blocks of a side, in order.
pub fn image_indices(blocks: &Vec<Block>) -> (r: Vec<usize>)
    ensures
        usizes_view(r@) == image_positions(block_views(blocks@)),
{
    let ghost all = block_views(blocks@);
    let mut r: Vec<usize> = Vec::new();
    let n = blocks.len();
    let mut i: usize = 0;
    proof {
        assert(all.take(0) =~= Seq::<BlockView>::empty());
        assert(usizes_view(r@) =~= Seq::<int>::empty());
    }
    while i < n
        invariant
            i <= n,
            n == blocks@.len(),
            all == block_views(blocks@),
            usizes_view(r@) == image_positions(all.take(i as int)),
        decreases n - i,
    {
        proof {
            assert(all.take(i + 1).drop_last() =~= all.take(i as int));
            assert(all.take(i + 1).last() == all[i as int]);
            assert(all[i as int] == block_view(blocks@[i as int]));
        }
        let image = match &blocks[i].kind {
            BlockKind::Image { .. } => true,
            _ => false,
        };
        if image {
            let ghost before = usizes_view(r@);
            r.push(i);
            proof {
                assert(usizes_view(r@) =~= before.push(i as int));
            }
        }
        i = i + 1;
    }
    proof {
        assert(all.take(n as int) =~= all);
    }
    r
}

/// The notice for images read from the working tree, added when the side
/// read them there and the list has room.
pub fn worktree_notice(blocks: &mut Vec<Block>, worktree: bool)
    ensures
        block_views(final(blocks)@) == if worktree && old(blocks)@.len() < MAX_BLOCKS {
            block_views(old(blocks)@).push(
                BlockView { kind: KindView::Notice(worktree_message()), indent: 0, heading: 0, line: 1 },
            )
        } else {
            block_views(old(blocks)@)
        },
{
    if worktree && blocks.len() < MAX_BLOCKS {
        let ghost before = block_views(blocks@);
        let notice = Block {
            kind: BlockKind::Notice(
                "Local images are captured from tracked working files now; this is not an atomic snapshot of the whole worktree.".to_owned(),
            ),
            indent: 0,
            heading: 0,
            line: 1,
        };
        blocks.push(notice);
        proof {
            assert(block_views(blocks@) =~= before.push(block_view(notice)));
        }
    }
}

/// What decoding a captured image gave: the bytes of its decoded pixels and
/// whether it could then be drawn, or why it could not be decoded.
pub enum Decoded {
    Failed(String),
    Pixels { bytes: usize, drawn: Result<(), String> },
}

/// What capturing one image gave: an error to show, and the decoded image
/// when the capture found it.
pub struct CaptureResult {
    pub error: Option<String>,
    pub asset: Option<Decoded>,
}

/// How an image is shown after capture: with its pixels, or with the error
/// that says why not.
#[derive(Debug, PartialEq, Eq)]
pub struct ImageOutcome {
    pub shown: bool,
    pub error: Option<String>,
}

pub open spec fn text_view(t: Option<String>) -> Option<Seq<char>> {
    match t {
        Some(m) => Some(m@),
        None => None,
    }
}

/// The outcome of one capture result under the pixel budget, and the
/// budget left: an image is decoded only while the budget is not spent,
/// kept only when its pixels fit, and drawn before it uses them up.
pub open spec fn capture_step(budget: int, result: CaptureResult) -> ((bool, Option<Seq<char>>), int) {
    match result.asset {
        None => ((false, text_view(result.error)), budget),
        Some(decoded) => if budget <= 0 {
            ((false, Some(budget_message())), budget)
        } else {
            match decoded {
                Decoded::Failed(m) => ((false, Some(m@)), budget),
                Decoded::Pixels { bytes, drawn } => if bytes > budget {
                    ((false, Some(budget_message())), budget)
                } else {
                    match drawn {
                        Err(m) => ((false, Some(m@)), budget),
                        Ok(_) => ((true, None), budget - bytes),
                    }
                },
            }
        },
    }
}

/// The outcomes of the results in order, and the budget left after them.
pub open spec fn capture_outcomes(results: Seq<CaptureResult>, budget: int) -> (Seq<(bool, Option<Seq<char>>)>, int)
    decreases results.len(),
{
    if results.len() == 0 {
        (seq![], budget)
    } else {
        let (before, left) = capture_outcomes(results.drop_last(), budget);
        let (last, after) = capture_step(left, results.last());
        (before.push(last), after)
    }
}

pub open spec fn outcomes_view(v: Seq<ImageOutcome>) -> Seq<(bool, Option<Seq<char>>)> {
    v.map_values(|o: ImageOutcome| (o.shown, text_view(o.error)))
}

/// How the `count` captured images of a side are shown, given what the
/// capture gave. When the capture failed as a whole, every image shows that
/// failure. Otherwise the images take the results one by one, as far as
/// both reach, under one budget of decoded pixels.
pub fn apply_captures(count: usize, results: &Result<Vec<CaptureResult>, String>) -> (r: Vec<ImageOutcome>)
    ensures
        match results {
            Err(failure) => r@.len() == count && forall|i: int|
                0 <= i < count ==> (#[trigger] r@[i]).shown == false && text_view(r@[i].error) == Some(
                    failure@,
                ),
            Ok(list) => outcomes_view(r@) == capture_outcomes(
                list@.take(if count < list@.len() {
                    count as int
                } else {
                    list@.len() as int
                }),
                PIXEL_BUDGET as int,
            ).0,
        },
{
    let mut r: Vec<ImageOutcome> = Vec::new();
    match results {
        Err(failure) => {
            let mut i: usize = 0;
            while i < count
                invariant
                    i <= count,
                    r@.len() == i,
                    forall|k: int|
                        0 <= k < i ==> (#[trigger] r@[k]).shown == false && text_view(r@[k].error)
                            == Some(failure@),
                decreases count - i,
            {
                r.push(ImageOutcome { shown: false, error: Some(failure.clone()) });
                i = i + 1;
            }
        },
        Ok(list) => {
            let n = if count < list.len() {
                count
            } else {
                list.len()
            };
            let mut budget: usize = PIXEL_BUDGET;
            let mut i: usize = 0;
            proof {
                assert(list@.take(0) =~= Seq::<CaptureResult>::empty());
                assert(outcomes_view(r@) =~= Seq::<(bool, Option<Seq<char>>)>::empty());
            }
            while i < n
                invariant
                    i <= n,
                    n <= list@.len(),
                    budget <= PIXEL_BUDGET,
                    (outcomes_view(r@), budget as int) == capture_outcomes(
                        list@.take(i as int),
                        PIXEL_BUDGET as int,
                    ),
                decreases n - i,
            {
                proof {
                    assert(list@.take(i + 1).drop_last() =~= list@.take(i as int));
                    assert(list@.take(i + 1).last() == list@[i as int]);
                }
                let result = &list[i];
                let outcome = match &result.asset {
                    None => ImageOutcome {
                        shown: false,
                        error: match &result.error {
                            Some(m) => Some(m.clone()),
                            None => None,
                        },
                    },
                    Some(decoded) => if budget == 0 {
                        ImageOutcome { shown: false, error: Some(budget_error()) }
                    } else {
                        match decoded {
                            Decoded::Failed(m) => ImageOutcome { shown: false, error: Some(m.clone()) },
                            Decoded::Pixels { bytes, drawn } => if *bytes > budget {
                                ImageOutcome { shown: false, error: Some(budget_error()) }
                            } else {
                                match drawn {
                                    Err(m) => ImageOutcome { shown: false, error: Some(m.clone()) },
                                    Ok(()) => {
                                        budget = budget - *bytes;
                                        ImageOutcome { shown: true, error: None }
                                    },
                                }
                            },
                        }
                    },
                };
                let ghost before = outcomes_view(r@);
                r.push(outcome);
                proof {
                    assert(outcomes_view(r@) =~= before.push((outcome.shown, text_view(outcome.error))));
                }
                i = i + 1;
            }
        },
    }
    r
}

} // verus!
