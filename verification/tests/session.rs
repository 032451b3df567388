use skyhook_core::driver::RequestFailure;
use skyhook_core::error::HarnessError;
use skyhook_core::observation::AgentActivity;
use skyhook_core::profiles::ModelProfiles;
use skyhook_core::protocol::{ImageReference, ModelProfile, UserContent};
use skyhook_core::session::{
    admit_prompt, prepare_content, request_failure, root_retryable, submission_outcome, ImageLimits,
};

fn profiles() -> ModelProfiles {
    let mut profiles = ModelProfiles::new();
    profiles.insert(
        "main".into(),
        ModelProfile {
            provider: "scripted".into(),
            model: "model".into(),
            reasoning: None,
            max_context: 1000,
            max_output: 100,
            supports_images: true,
        },
    );
    profiles
}

const LIMITS: ImageLimits = ImageLimits {
    image_bytes: 10,
    images: 3,
    total_bytes: 20,
};

#[test]
fn submissions_keep_to_the_image_limits() {
    let judge = |sizes: &[u64]| admit_prompt(&profiles(), &None, &sizes.to_vec(), LIMITS);
    assert_eq!(judge(&[]), Ok(()));
    assert_eq!(judge(&[10, 10, 0]), Ok(()));
    assert_eq!(judge(&[11]), Err(HarnessError::ImageLimit));
    assert_eq!(judge(&[1, 1, 1, 1]), Err(HarnessError::ImageLimit));
    assert_eq!(judge(&[10, 10, 1]), Err(HarnessError::ImageLimit));
}

#[test]
fn an_unknown_model_is_refused_before_images_are_looked_at() {
    assert_eq!(
        admit_prompt(&profiles(), &Some("other".into()), &vec![99], LIMITS),
        Err(HarnessError::UnknownModelProfile("other".into()))
    );
    assert_eq!(admit_prompt(&profiles(), &Some("main".into()), &vec![1], LIMITS), Ok(()));
}

#[test]
fn image_sizes_add_up_without_overflow() {
    let limits = ImageLimits {
        image_bytes: u64::MAX,
        images: 2,
        total_bytes: u64::MAX - 1,
    };
    assert_eq!(
        admit_prompt(&profiles(), &None, &vec![u64::MAX - 1, u64::MAX - 1], limits),
        Err(HarnessError::ImageLimit)
    );
}

#[test]
fn text_comes_before_images() {
    let image = ImageReference {
        sha256: "abc".into(),
        media_type: "image/png".into(),
        name: "shot.png".into(),
        bytes: 3,
        data_base64: None,
    };
    assert_eq!(
        prepare_content("look".into(), vec![image.clone()]),
        vec![UserContent::Text { text: "look".into() }, UserContent::Image { image }]
    );
    assert_eq!(prepare_content(String::new(), vec![]), vec![UserContent::Text { text: String::new() }]);
}

#[test]
fn only_a_failed_or_interrupted_root_is_continued() {
    assert!(root_retryable(&Some(AgentActivity::Failed("lost".into()))));
    assert!(root_retryable(&Some(AgentActivity::Interrupted)));
    assert!(!root_retryable(&Some(AgentActivity::WaitingChildren)));
    assert!(!root_retryable(&Some(AgentActivity::Idle)));
    assert!(!root_retryable(&None));
}

#[test]
fn replies_become_answers_or_errors() {
    assert_eq!(submission_outcome(None, "interrupted"), Err(HarnessError::AgentStopped));
    assert_eq!(submission_outcome(Some(Ok("answer".into())), "interrupted"), Ok("answer".into()));
    assert_eq!(
        submission_outcome(Some(Err(RequestFailure::Interrupted)), "interrupted"),
        Err(HarnessError::Agent("interrupted".into()))
    );
    assert_eq!(
        submission_outcome(Some(Err(RequestFailure::Failed("lost".into()))), "interrupted"),
        Err(HarnessError::Agent("lost".into()))
    );
}

#[test]
fn interrupts_stay_typed() {
    assert_eq!(
        request_failure(&HarnessError::Interrupted, "shown".into()),
        RequestFailure::Interrupted
    );
    assert_eq!(
        request_failure(&HarnessError::ChildDepth, "shown".into()),
        RequestFailure::Failed("shown".into())
    );
}
