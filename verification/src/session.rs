//! Submissions to a session.

use vstd::prelude::*;
use vstd::string::*;
use crate::driver::RequestFailure;
use crate::error::HarnessError;
use crate::model;
use crate::observation::AgentActivity;
use crate::profiles::ModelProfiles;
use crate::protocol::{ImageReference, ImageReferenceView, UserContent, UserContentView};

verus! {

/// How many images a submission may have, and how large they may be.
#[derive(Clone, Copy, Debug, PartialEq, Eq, Structural)]
pub struct ImageLimits {
    /// Bytes of one image.
    pub image_bytes: u64,
    /// Images of a submission.
    pub images: u64,
    /// Bytes of all images of a submission.
    pub total_bytes: u64,
}

/// The sum of sizes.
pub open spec fn size_sum(sizes: Seq<u64>) -> nat
    decreases sizes.len(),
{
    if sizes.len() == 0 {
        0
    } else {
        size_sum(sizes.drop_last()) + sizes.last() as nat
    }
}

/// Whether images keep to limits.
pub open spec fn within_limits(sizes: Seq<u64>, limits: ImageLimits) -> bool {
    &&& forall|i: int| 0 <= i < sizes.len() ==> #[trigger] sizes[i] <= limits.image_bytes
    &&& sizes.len() <= limits.images
    &&& sizes.len() > 0 ==> saturated(size_sum(sizes)) <= limits.total_bytes
}

/// A sum that stops at the largest counter.
pub open spec fn saturated(sum: nat) -> u64 {
    if sum > u64::MAX {
        u64::MAX
    } else {
        sum as u64
    }
}

proof fn lemma_size_sum(sizes: Seq<u64>, count: int)
    requires
        0 <= count <= sizes.len(),
    ensures
        size_sum(sizes.take(count)) <= size_sum(sizes),
    decreases sizes.len(),
{
    if count < sizes.len() {
        assert(sizes.drop_last().take(count) =~= sizes.take(count));
        lemma_size_sum(sizes.drop_last(), count);
    } else {
        assert(sizes.take(count) =~= sizes);
    }
}

/// Admits a submission: its model profile must be known, and its images must keep to
/// the limits. Every limit is looked at before anything is stored.
pub fn admit_prompt(
    profiles: &ModelProfiles,
    model: &Option<String>,
    sizes: &Vec<u64>,
    limits: ImageLimits,
) -> (admitted: Result<(), HarnessError>)
    ensures
        match admitted {
            Ok(()) => (model matches Some(name) ==> profiles@.dom().contains(name@)) && within_limits(
                sizes@,
                limits,
            ),
            Err(error) => match model {
                Some(name) => if !profiles@.dom().contains(name@) {
                    error matches HarnessError::UnknownModelProfile(text) && text@ == name@
                } else {
                    error is ImageLimit && !within_limits(sizes@, limits)
                },
                None => error is ImageLimit && !within_limits(sizes@, limits),
            },
        },
{
    if let Some(name) = model {
        if profiles.get(name.as_str()).is_none() {
            return Err(HarnessError::UnknownModelProfile(name.clone()));
        }
    }
    let mut images: u64 = 0;
    let mut total: u64 = 0;
    let mut i: usize = 0;
    while i < sizes.len()
        invariant
            i <= sizes.len(),
            images == i,
            total == saturated(size_sum(sizes@.take(i as int))),
            model matches Some(name) ==> profiles@.dom().contains(name@),
            forall|k: int| 0 <= k < i ==> #[trigger] sizes@[k] <= limits.image_bytes,
            i <= limits.images,
            i > 0 ==> total <= limits.total_bytes,
        decreases sizes.len() - i,
    {
        let bytes: u64 = sizes[i];
        proof {
            assert(sizes@.take(i + 1).drop_last() =~= sizes@.take(i as int));
            assert(sizes@.take(i + 1).last() == bytes);
            lemma_size_sum(sizes@, i + 1);
        }
        images += 1;
        total = total.saturating_add(bytes);
        if bytes > limits.image_bytes || images > limits.images || total > limits.total_bytes {
            assert(sizes@[i as int] == bytes);
            return Err(HarnessError::ImageLimit);
        }
        i += 1;
    }
    assert(sizes@.take(i as int) =~= sizes@);
    Ok(())
}

/// The content of a submission: its text, then its images.
pub open spec fn prompt_content(text: Seq<char>, images: Seq<ImageReferenceView>) -> Seq<UserContentView> {
    seq![UserContentView::Text { text }] + images.map_values(
        |image: ImageReferenceView| UserContentView::Image { image },
    )
}

/// Puts the content of a submission together.
pub fn prepare_content(text: String, images: Vec<ImageReference>) -> (content: Vec<UserContent>)
    ensures
        model::views(content@) == prompt_content(text@, model::views(images@)),
{
    let ghost goal = prompt_content(text@, model::views(images@));
    let ghost all = model::views(images@);
    let mut content: Vec<UserContent> = Vec::new();
    let ghost first = text@;
    content.push(UserContent::Text { text });
    assert(model::views(content@) =~= goal.take(1));
    for image in it: images
        invariant
            it.seq() == images@,
            all == model::views(images@),
            goal == prompt_content(first, all),
            model::views(content@) =~= goal.take(it.index() + 1),
    {
        let ghost index = it.index() as int;
        let ghost earlier = content@;
        let block = UserContent::Image { image };
        let ghost added = block@;
        assert(all[index] == image@);
        assert(added == goal[index + 1]);
        content.push(block);
        assert(model::views(content@) =~= model::views(earlier).push(added));
        assert(goal.take(index + 2) =~= goal.take(index + 1).push(goal[index + 1]));
    }
    assert(goal.take(goal.len() as int) =~= goal);
    content
}

/// Whether a root can be continued: it failed or was interrupted on its own. A root that
/// waits for its children is left alone.
pub open spec fn is_retryable(activity: Option<AgentActivity>) -> bool {
    match activity {
        Some(AgentActivity::Failed(_)) => true,
        Some(AgentActivity::Interrupted) => true,
        _ => false,
    }
}

/// Tests whether a root can be continued.
pub fn root_retryable(activity: &Option<AgentActivity>) -> (answer: bool)
    ensures
        answer == is_retryable(*activity),
{
    match activity {
        Some(AgentActivity::Failed(_)) => true,
        Some(AgentActivity::Interrupted) => true,
        _ => false,
    }
}

/// What is shown of a failed request. `interrupted` is shown of an interrupt.
pub open spec fn failure_text(failure: RequestFailure, interrupted: Seq<char>) -> Seq<char> {
    match failure {
        RequestFailure::Interrupted => interrupted,
        RequestFailure::Failed(message) => message@,
    }
}

/// What a submission comes to: an agent that never replies has stopped.
pub fn submission_outcome(reply: Option<Result<String, RequestFailure>>, interrupted: &str) -> (outcome: Result<
    String,
    HarnessError,
>)
    ensures
        match reply {
            None => outcome matches Err(error) && error is AgentStopped,
            Some(Ok(text)) => outcome == Ok::<String, HarnessError>(text),
            Some(Err(failure)) => outcome matches Err(HarnessError::Agent(text)) && text@ == failure_text(
                failure,
                interrupted@,
            ),
        },
{
    match reply {
        None => Err(HarnessError::AgentStopped),
        Some(Ok(text)) => Ok(text),
        Some(Err(failure)) => match failure {
            RequestFailure::Interrupted => Err(HarnessError::Agent(interrupted.to_owned())),
            RequestFailure::Failed(message) => Err(HarnessError::Agent(message)),
        },
    }
}

/// How a request fails with an error. An interrupt stays typed; of any other error,
/// `shown` is kept.
pub fn request_failure(error: &HarnessError, shown: String) -> (failure: RequestFailure)
    ensures
        failure == if *error is Interrupted {
            RequestFailure::Interrupted
        } else {
            RequestFailure::Failed(shown)
        },
{
    match error {
        HarnessError::Interrupted => RequestFailure::Interrupted,
        _ => RequestFailure::Failed(shown),
    }
}

/// Images keep to limits where there are not too many, none of them is too large and all
/// of them together are not. Images that keep to them still do where one is left out.
pub proof fn limits_hold_for_each_and_for_all(sizes: Seq<u64>, limits: ImageLimits, index: int, size: u64)
    ensures
        within_limits(seq![], limits),
        within_limits(sizes, limits) && 0 <= index < sizes.len() ==> sizes[index] <= limits.image_bytes,
        within_limits(sizes, limits) ==> sizes.len() <= limits.images,
        within_limits(sizes, limits) && sizes.len() > 0 && limits.total_bytes < u64::MAX ==> size_sum(sizes)
            <= limits.total_bytes,
        size_sum(sizes.push(size)) == size_sum(sizes) + size,
        within_limits(sizes.push(size), limits) ==> within_limits(sizes, limits),
        within_limits(sizes, limits) && size <= limits.image_bytes && sizes.len() < limits.images && size_sum(sizes)
            + size <= limits.total_bytes ==> within_limits(sizes.push(size), limits),
{
    let more = sizes.push(size);
    assert(more.drop_last() =~= sizes);
    assert(more[sizes.len() as int] == size);
    if within_limits(more, limits) {
        assert forall|i: int| 0 <= i < sizes.len() implies #[trigger] sizes[i] <= limits.image_bytes by {
            assert(more[i] == sizes[i]);
        }
    }
    if within_limits(sizes, limits) && size <= limits.image_bytes {
        assert forall|i: int| 0 <= i < more.len() implies #[trigger] more[i] <= limits.image_bytes by {
            if i < sizes.len() {
                assert(more[i] == sizes[i]);
            }
        }
    }
    assert(size_sum(seq![]) == 0);
}

/// A submission is its text first, then each of its images in their order.
pub proof fn submissions_are_text_and_images(text: Seq<char>, images: Seq<ImageReferenceView>, index: int)
    ensures
        prompt_content(text, images).len() == images.len() + 1,
        prompt_content(text, images)[0] == (UserContentView::Text { text }),
        0 <= index < images.len() ==> prompt_content(text, images)[index + 1] == (UserContentView::Image {
            image: images[index],
        }),
{
}

/// A root is continued only where it failed or was interrupted.
pub proof fn only_broken_roots_are_continued(activity: AgentActivity)
    ensures
        is_retryable(Some(activity)) <==> activity is Failed || activity is Interrupted,
        !is_retryable(None),
{
}

/// An interrupted request is shown as such, and a failed one with what it failed with.
pub proof fn failures_show_why(message: String, interrupted: Seq<char>)
    ensures
        failure_text(RequestFailure::Interrupted, interrupted) == interrupted,
        failure_text(RequestFailure::Failed(message), interrupted) == message@,
{
}

} // verus!
