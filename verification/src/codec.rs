//! Tag codecs for the closed enumerations. Over the storage and wire
//! boundary the enums travel as small integer tags and must round-trip by
//! tag value, not by name.

use vstd::prelude::*;
use vstd::bytes::{
    lemma_auto_spec_u64_to_from_le_bytes, spec_u64_from_le_bytes, spec_u64_to_le_bytes,
    u64_from_le_bytes, u64_to_le_bytes,
};
use vstd::slice::{slice_index_get, slice_subrange};
use crate::registry::{Address, Certificate, Level, Skill, Status};

verus! {

/// The wire tag of a skill.
pub open spec fn spec_skill_tag(s: Skill) -> u8 {
    match s {
        Skill::Skill1 => 0,
        Skill::Skill2 => 1,
        Skill::Skill3 => 2,
        Skill::Skill4 => 3,
        Skill::Skill5 => 4,
    }
}

/// The skill a wire tag denotes, if any.
pub open spec fn spec_skill_of_tag(t: u8) -> Option<Skill> {
    match t {
        0u8 => Some(Skill::Skill1),
        1u8 => Some(Skill::Skill2),
        2u8 => Some(Skill::Skill3),
        3u8 => Some(Skill::Skill4),
        4u8 => Some(Skill::Skill5),
        _ => None,
    }
}

/// The wire tag of a level.
pub open spec fn spec_level_tag(l: Level) -> u8 {
    match l {
        Level::Basic => 0,
        Level::Intermediate => 1,
        Level::Advanced => 2,
    }
}

/// The level a wire tag denotes, if any.
pub open spec fn spec_level_of_tag(t: u8) -> Option<Level> {
    match t {
        0u8 => Some(Level::Basic),
        1u8 => Some(Level::Intermediate),
        2u8 => Some(Level::Advanced),
        _ => None,
    }
}

/// The wire tag of a status.
pub open spec fn spec_status_tag(s: Status) -> u8 {
    match s {
        Status::Active => 0,
        Status::Revoked => 1,
    }
}

/// The status a wire tag denotes, if any.
pub open spec fn spec_status_of_tag(t: u8) -> Option<Status> {
    match t {
        0u8 => Some(Status::Active),
        1u8 => Some(Status::Revoked),
        _ => None,
    }
}

pub fn skill_tag(s: Skill) -> (t: u8)
    ensures
        t == spec_skill_tag(s),
{
    match s {
        Skill::Skill1 => 0,
        Skill::Skill2 => 1,
        Skill::Skill3 => 2,
        Skill::Skill4 => 3,
        Skill::Skill5 => 4,
    }
}

pub fn skill_of_tag(t: u8) -> (r: Option<Skill>)
    ensures
        r == spec_skill_of_tag(t),
{
    match t {
        0u8 => Some(Skill::Skill1),
        1u8 => Some(Skill::Skill2),
        2u8 => Some(Skill::Skill3),
        3u8 => Some(Skill::Skill4),
        4u8 => Some(Skill::Skill5),
        _ => None,
    }
}

pub fn level_tag(l: Level) -> (t: u8)
    ensures
        t == spec_level_tag(l),
{
    match l {
        Level::Basic => 0,
        Level::Intermediate => 1,
        Level::Advanced => 2,
    }
}

pub fn level_of_tag(t: u8) -> (r: Option<Level>)
    ensures
        r == spec_level_of_tag(t),
{
    match t {
        0u8 => Some(Level::Basic),
        1u8 => Some(Level::Intermediate),
        2u8 => Some(Level::Advanced),
        _ => None,
    }
}

pub fn status_tag(s: Status) -> (t: u8)
    ensures
        t == spec_status_tag(s),
{
    match s {
        Status::Active => 0,
        Status::Revoked => 1,
    }
}

pub fn status_of_tag(t: u8) -> (r: Option<Status>)
    ensures
        r == spec_status_of_tag(t),
{
    match t {
        0u8 => Some(Status::Active),
        1u8 => Some(Status::Revoked),
        _ => None,
    }
}

/// The wire image of a certificate: the ordered fields (id, skill tag,
/// level tag, status tag, user address, issuer address), integers
/// little-endian.
pub open spec fn spec_encode_certificate(c: Certificate) -> Seq<u8> {
    spec_u64_to_le_bytes(c.id as u64) + seq![
        spec_skill_tag(c.skill),
        spec_level_tag(c.level),
        spec_status_tag(c.status),
    ] + spec_u64_to_le_bytes(c.user_address.0) + spec_u64_to_le_bytes(c.issuer_address.0)
}

/// Where each field sits in the wire image.
proof fn lemma_encode_parts(c: Certificate)
    ensures
        spec_encode_certificate(c).len() == 27,
        spec_encode_certificate(c).subrange(0, 8) == spec_u64_to_le_bytes(c.id as u64),
        spec_encode_certificate(c)[8] == spec_skill_tag(c.skill),
        spec_encode_certificate(c)[9] == spec_level_tag(c.level),
        spec_encode_certificate(c)[10] == spec_status_tag(c.status),
        spec_encode_certificate(c).subrange(11, 19) == spec_u64_to_le_bytes(c.user_address.0),
        spec_encode_certificate(c).subrange(19, 27) == spec_u64_to_le_bytes(c.issuer_address.0),
{
    lemma_auto_spec_u64_to_from_le_bytes();
    assert(spec_encode_certificate(c).subrange(0, 8) =~= spec_u64_to_le_bytes(c.id as u64));
    assert(spec_encode_certificate(c).subrange(11, 19) =~= spec_u64_to_le_bytes(
        c.user_address.0,
    ));
    assert(spec_encode_certificate(c).subrange(19, 27) =~= spec_u64_to_le_bytes(
        c.issuer_address.0,
    ));
}

/// Serializes a certificate for the storage/wire boundary.
pub fn encode_certificate(c: &Certificate) -> (out: Vec<u8>)
    ensures
        out@ == spec_encode_certificate(*c),
        out@.len() == 27,
{
    proof {
        lemma_auto_spec_u64_to_from_le_bytes();
    }
    let mut out = u64_to_le_bytes(c.id as u64);
    out.push(skill_tag(c.skill));
    out.push(level_tag(c.level));
    out.push(status_tag(c.status));
    let mut user_bytes = u64_to_le_bytes(c.user_address.0);
    out.append(&mut user_bytes);
    let mut issuer_bytes = u64_to_le_bytes(c.issuer_address.0);
    out.append(&mut issuer_bytes);
    proof {
        assert(out@ =~= spec_encode_certificate(*c));
    }
    out
}

/// Parses a certificate back out of its wire image. Returns `Some(c)` only
/// for the exact image of `c`, and decodes every image: the codec
/// round-trips by tag value.
pub fn decode_certificate(bytes: &[u8]) -> (r: Option<Certificate>)
    ensures
        r matches Some(c) ==> bytes@ == spec_encode_certificate(c),
        forall|c: Certificate| bytes@ == spec_encode_certificate(c) ==> r == Some(c),
{
    proof {
        lemma_auto_spec_u64_to_from_le_bytes();
    }
    if bytes.len() != 27 {
        proof {
            assert forall|c: Certificate| bytes@ != spec_encode_certificate(c) by {
                lemma_encode_parts(c);
            }
        }
        return None;
    }
    let id_u64 = u64_from_le_bytes(slice_subrange(bytes, 0, 8));
    let user_u64 = u64_from_le_bytes(slice_subrange(bytes, 11, 19));
    let issuer_u64 = u64_from_le_bytes(slice_subrange(bytes, 19, 27));
    if id_u64 > usize::MAX as u64 {
        proof {
            assert forall|c: Certificate| bytes@ != spec_encode_certificate(c) by {
                lemma_encode_parts(c);
                if bytes@ == spec_encode_certificate(c) {
                    assert(id_u64 == spec_u64_from_le_bytes(
                        spec_u64_to_le_bytes(c.id as u64),
                    ));
                }
            }
        }
        return None;
    }
    let id = id_u64 as usize;
    let skill = skill_of_tag(*slice_index_get(bytes, 8));
    let level = level_of_tag(*slice_index_get(bytes, 9));
    let status = status_of_tag(*slice_index_get(bytes, 10));
    match (skill, level, status) {
        (Some(sk), Some(lv), Some(st)) => {
            let c = Certificate {
                id,
                skill: sk,
                level: lv,
                status: st,
                user_address: Address(user_u64),
                issuer_address: Address(issuer_u64),
            };
            proof {
                lemma_encode_parts(c);
                lemma_skill_of_tag_round_trip(bytes@[8]);
                lemma_level_of_tag_round_trip(bytes@[9]);
                lemma_status_of_tag_round_trip(bytes@[10]);
                assert(bytes@ =~= spec_encode_certificate(c));
                assert forall|c2: Certificate|
                    bytes@ == spec_encode_certificate(c2) implies c2 == c by {
                    lemma_encode_parts(c2);
                    assert(id_u64 == spec_u64_from_le_bytes(
                        spec_u64_to_le_bytes(c2.id as u64),
                    ));
                    lemma_skill_tag_round_trip(c2.skill);
                    lemma_level_tag_round_trip(c2.level);
                    lemma_status_tag_round_trip(c2.status);
                    assert(user_u64 == spec_u64_from_le_bytes(
                        spec_u64_to_le_bytes(c2.user_address.0),
                    ));
                    assert(issuer_u64 == spec_u64_from_le_bytes(
                        spec_u64_to_le_bytes(c2.issuer_address.0),
                    ));
                }
            }
            Some(c)
        },
        _ => {
            proof {
                assert forall|c: Certificate| bytes@ != spec_encode_certificate(c) by {
                    lemma_encode_parts(c);
                    if bytes@ == spec_encode_certificate(c) {
                        lemma_skill_tag_round_trip(c.skill);
                        lemma_level_tag_round_trip(c.level);
                        lemma_status_tag_round_trip(c.status);
                    }
                }
            }
            None
        },
    }
}

/// The wire image round-trips: two certificates with the same image are the
/// same certificate, so decoding an image recovers exactly the certificate
/// that was encoded.
pub proof fn lemma_encode_certificate_injective(c1: Certificate, c2: Certificate)
    requires
        spec_encode_certificate(c1) == spec_encode_certificate(c2),
    ensures
        c1 == c2,
{
    lemma_auto_spec_u64_to_from_le_bytes();
    lemma_encode_parts(c1);
    lemma_encode_parts(c2);
    assert(c1.id as u64 == spec_u64_from_le_bytes(spec_u64_to_le_bytes(c1.id as u64)));
    assert(c2.id as u64 == spec_u64_from_le_bytes(spec_u64_to_le_bytes(c2.id as u64)));
    lemma_skill_tag_round_trip(c1.skill);
    lemma_skill_tag_round_trip(c2.skill);
    lemma_level_tag_round_trip(c1.level);
    lemma_level_tag_round_trip(c2.level);
    lemma_status_tag_round_trip(c1.status);
    lemma_status_tag_round_trip(c2.status);
    assert(c1.user_address.0 == spec_u64_from_le_bytes(
        spec_u64_to_le_bytes(c1.user_address.0),
    ));
    assert(c2.user_address.0 == spec_u64_from_le_bytes(
        spec_u64_to_le_bytes(c2.user_address.0),
    ));
    assert(c1.issuer_address.0 == spec_u64_from_le_bytes(
        spec_u64_to_le_bytes(c1.issuer_address.0),
    ));
    assert(c2.issuer_address.0 == spec_u64_from_le_bytes(
        spec_u64_to_le_bytes(c2.issuer_address.0),
    ));
}

/// Every skill tag decodes back to the skill it encodes.
pub proof fn lemma_skill_tag_round_trip(s: Skill)
    ensures
        spec_skill_of_tag(spec_skill_tag(s)) == Some(s),
{
}

/// Every tag that decodes to a skill at all re-encodes to itself.
pub proof fn lemma_skill_of_tag_round_trip(t: u8)
    ensures
        spec_skill_of_tag(t) matches Some(d) ==> spec_skill_tag(d) == t,
{
}

/// Every level tag decodes back to the level it encodes.
pub proof fn lemma_level_tag_round_trip(l: Level)
    ensures
        spec_level_of_tag(spec_level_tag(l)) == Some(l),
{
}

/// Every tag that decodes to a level at all re-encodes to itself.
pub proof fn lemma_level_of_tag_round_trip(t: u8)
    ensures
        spec_level_of_tag(t) matches Some(d) ==> spec_level_tag(d) == t,
{
}

/// Every status tag decodes back to the status it encodes.
pub proof fn lemma_status_tag_round_trip(s: Status)
    ensures
        spec_status_of_tag(spec_status_tag(s)) == Some(s),
{
}

/// Every tag that decodes to a status at all re-encodes to itself.
pub proof fn lemma_status_of_tag_round_trip(t: u8)
    ensures
        spec_status_of_tag(t) matches Some(d) ==> spec_status_tag(d) == t,
{
}

} // verus!
