//! The meeting link that every member of a finished cohort derives on its own.
//!
//! The link names a SHA-256 digest of a byte encoding of the meeting, the winning topics and
//! the cohort's sorted members, so members that agree on those values agree on the link.
use sha2::Digest;
use vstd::prelude::*;
use vstd::utf8::encode_utf8;

use crate::listing::name_views;
use crate::messages::UserTopic;

verus! {

/// The four bytes of `x`, most significant first.
pub open spec fn be_u32(x: u32) -> Seq<u8> {
    seq![
        (x / 0x100_0000) as u8,
        (x / 0x1_0000 % 0x100) as u8,
        (x / 0x100 % 0x100) as u8,
        (x % 0x100) as u8,
    ]
}

/// The eight bytes of `x`, most significant first.
pub open spec fn be_u64(x: u64) -> Seq<u8> {
    be_u32((x / 0x1_0000_0000) as u32) + be_u32((x % 0x1_0000_0000) as u32)
}

/// A text as its UTF-8 length followed by its UTF-8 bytes.
pub open spec fn text_bytes(s: Seq<char>) -> Seq<u8> {
    be_u64(encode_utf8(s).len() as u64) + encode_utf8(s)
}

/// A topic as seen by the link: its identifier, score and text.
pub open spec fn topic_view(t: UserTopic) -> (u32, u32, Seq<char>) {
    (t.id, t.score, t.text@)
}

pub open spec fn topic_views(ts: Seq<UserTopic>) -> Seq<(u32, u32, Seq<char>)> {
    ts.map_values(|t: UserTopic| topic_view(t))
}

/// The topics one after the other, each as identifier, score and text.
pub open spec fn topics_bytes(ts: Seq<(u32, u32, Seq<char>)>) -> Seq<u8>
    decreases ts.len(),
{
    if ts.len() == 0 {
        Seq::empty()
    } else {
        topics_bytes(ts.drop_last()) + be_u32(ts.last().0) + be_u32(ts.last().1) + text_bytes(
            ts.last().2,
        )
    }
}

/// The texts one after the other.
pub open spec fn texts_bytes(ns: Seq<Seq<char>>) -> Seq<u8>
    decreases ns.len(),
{
    if ns.len() == 0 {
        Seq::empty()
    } else {
        texts_bytes(ns.drop_last()) + text_bytes(ns.last())
    }
}

/// What the link's digest is taken of: the meeting's identifier and name, the count and list of
/// winning topics, and the count and list of members.
pub open spec fn link_preimage(
    meeting_id: u32,
    meeting_name: Seq<char>,
    topics: Seq<(u32, u32, Seq<char>)>,
    members: Seq<Seq<char>>,
) -> Seq<u8> {
    be_u32(meeting_id) + text_bytes(meeting_name) + be_u64(topics.len() as u64) + topics_bytes(
        topics,
    ) + be_u64(members.len() as u64) + texts_bytes(members)
}

/// The SHA-256 digest of `data`, written as lower-case hexadecimal.
pub uninterp spec fn sha256_hex(data: Seq<u8>) -> Seq<char>;

/// Where the cohort meets: a fixed address followed by a hexadecimal digest.
pub open spec fn link_prefix() -> Seq<char> {
    "https://meet.jit.si/ehallway/"@
}

/// The link of a finished election.
pub open spec fn meeting_link(
    meeting_id: u32,
    meeting_name: Seq<char>,
    topics: Seq<(u32, u32, Seq<char>)>,
    members: Seq<Seq<char>>,
) -> Seq<char> {
    link_prefix() + sha256_hex(link_preimage(meeting_id, meeting_name, topics, members))
}

/// Relies on sha2's `Sha256::digest` and the lower-case hexadecimal formatting of its output.
#[verifier::external_body]
fn sha256_hex_digest(data: &Vec<u8>) -> (r: String)
    ensures
        r@ == sha256_hex(data@),
{
    format!("{:x}", sha2::Sha256::digest(data.as_slice()))
}

/// Relies on `String::push_str`: `tail`'s characters are appended to `s`.
#[verifier::external_body]
fn append(s: &mut String, tail: &str)
    ensures
        final(s)@ == old(s)@ + tail@,
{
    s.push_str(tail)
}

fn push_u32(out: &mut Vec<u8>, x: u32)
    ensures
        final(out)@ == old(out)@ + be_u32(x),
{
    out.push((x / 0x100_0000) as u8);
    out.push((x / 0x1_0000 % 0x100) as u8);
    out.push((x / 0x100 % 0x100) as u8);
    out.push((x % 0x100) as u8);
    proof {
        assert(out@ =~= old(out)@ + be_u32(x));
    }
}

fn push_u64(out: &mut Vec<u8>, x: u64)
    ensures
        final(out)@ == old(out)@ + be_u64(x),
{
    push_u32(out, (x / 0x1_0000_0000) as u32);
    push_u32(out, (x % 0x1_0000_0000) as u32);
    proof {
        assert(out@ =~= old(out)@ + be_u64(x));
    }
}

fn push_text(out: &mut Vec<u8>, s: &str)
    ensures
        final(out)@ == old(out)@ + text_bytes(s@),
{
    let bytes = s.as_bytes();
    push_u64(out, bytes.len() as u64);
    let ghost start = out@;
    let mut i: usize = 0;
    while i < bytes.len()
        invariant
            bytes@ == encode_utf8(s@),
            i <= bytes@.len(),
            out@ == start + bytes@.take(i as int),
        decreases bytes@.len() - i,
    {
        out.push(bytes[i]);
        proof {
            assert(out@ =~= start + bytes@.take(i as int + 1));
        }
        i = i + 1;
    }
    proof {
        assert(bytes@.take(bytes@.len() as int) =~= bytes@);
        assert(out@ =~= old(out)@ + text_bytes(s@));
    }
}

/// The bytes whose digest names the link of a finished election.
pub fn link_bytes(
    meeting_id: u32,
    meeting_name: &str,
    topics: &Vec<UserTopic>,
    members: &Vec<String>,
) -> (out: Vec<u8>)
    ensures
        out@ == link_preimage(meeting_id, meeting_name@, topic_views(topics@), name_views(members@)),
{
    let ghost ts = topic_views(topics@);
    let ghost ns = name_views(members@);
    let mut out: Vec<u8> = Vec::new();
    push_u32(&mut out, meeting_id);
    push_text(&mut out, meeting_name);
    push_u64(&mut out, topics.len() as u64);
    let ghost head = out@;
    let mut i: usize = 0;
    while i < topics.len()
        invariant
            ts == topic_views(topics@),
            i <= topics@.len(),
            out@ == head + topics_bytes(ts.take(i as int)),
        decreases topics@.len() - i,
    {
        let t = &topics[i];
        push_u32(&mut out, t.id);
        push_u32(&mut out, t.score);
        push_text(&mut out, t.text.as_str());
        proof {
            assert(ts.take(i as int + 1).drop_last() =~= ts.take(i as int));
            assert(ts.take(i as int + 1).last() == topic_view(*t));
        }
        i = i + 1;
    }
    proof {
        assert(ts.take(topics@.len() as int) =~= ts);
    }
    push_u64(&mut out, members.len() as u64);
    let ghost middle = out@;
    let mut j: usize = 0;
    while j < members.len()
        invariant
            ns == name_views(members@),
            j <= members@.len(),
            out@ == middle + texts_bytes(ns.take(j as int)),
        decreases members@.len() - j,
    {
        push_text(&mut out, members[j].as_str());
        proof {
            assert(ns.take(j as int + 1).drop_last() =~= ns.take(j as int));
            assert(ns.take(j as int + 1).last() == members@[j as int]@);
        }
        j = j + 1;
    }
    proof {
        assert(ns.take(members@.len() as int) =~= ns);
        assert(out@ =~= link_preimage(meeting_id, meeting_name@, ts, ns));
    }
    out
}

/// The link for the hexadecimal digest `digest_hex`.
pub fn link_from_digest(digest_hex: &str) -> (link: String)
    ensures
        link@ == link_prefix() + digest_hex@,
{
    let mut link = "https://meet.jit.si/ehallway/".to_owned();
    append(&mut link, digest_hex);
    link
}

/// The link of a finished election of `topics` by `members` in the given meeting.
pub fn meeting_url(
    meeting_id: u32,
    meeting_name: &str,
    topics: &Vec<UserTopic>,
    members: &Vec<String>,
) -> (link: String)
    ensures
        link@ == meeting_link(meeting_id, meeting_name@, topic_views(topics@), name_views(members@)),
{
    let bytes = link_bytes(meeting_id, meeting_name, topics, members);
    let digest = sha256_hex_digest(&bytes);
    link_from_digest(digest.as_str())
}

} // verus!
