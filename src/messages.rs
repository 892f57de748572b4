//! The values exchanged with clients of the meeting service.
use vstd::prelude::*;

verus! {

/// The cohort that holds the participant receiving the message; none means "ask again later".
pub struct CohortMessage {
    pub cohort: Option<Vec<String>>,
}

/// A discussion topic with its score and identifier.
#[derive(Clone, Debug)]
pub struct UserTopic {
    pub text: String,
    pub score: u32,
    pub id: u32,
}

/// The state of a cohort's election, as shown to one of its members.
#[derive(Debug)]
pub struct ElectionResults {
    pub meeting_id: u32,
    pub meeting_name: String,
    /// The winning topics, best first, once the vote is finished.
    pub topics: Option<Vec<UserTopic>>,
    /// The cohort's members in lexicographic order, once the vote is finished.
    pub users: Option<Vec<String>>,
    /// The link shared by the whole cohort, empty until the vote is finished.
    pub meeting_url: String,
    pub status: String,
}

/// A meeting with its attendance counts.
#[derive(Clone, Debug, PartialEq, Eq, Hash)]
pub struct Meeting {
    pub name: String,
    pub id: u32,
    pub n_registered: u32,
    pub n_joined: u32,
}

pub struct MeetingParticipantsMessage {
    pub n_joined: u32,
    pub n_registered: u32,
}

/// A meeting with the requesting participant's score for it.
pub struct MeetingMessage {
    pub meeting: Meeting,
    pub score: u32,
}

pub struct MeetingsMessage {
    pub meetings: Vec<MeetingMessage>,
}

pub struct NewMeeting {
    pub name: String,
}

pub struct NewTopicMessage {
    pub new_topic: String,
}

pub struct ParticipateMeetingMessage {
    pub participate: bool,
}

pub struct RegisteredMeetingsMessage {
    pub meetings: Vec<u32>,
}

pub struct ScoreMessage {
    pub score: u32,
}

#[derive(Clone)]
pub struct UserIdMessage {
    pub email: String,
}

pub struct UserTopicsMessage {
    pub topics: Vec<UserTopic>,
}

} // verus!
