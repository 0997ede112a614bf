use cert_skills::registry::{Address, CertError, CertSkills, Certificate, Level, Skill, Status};

#[test]
fn init_starts_empty() {
    let reg = CertSkills::init();
    assert_eq!(reg.last_certificate_id(), 0);
    assert_eq!(reg.get_certificate(0), Err(CertError::NotFoundError));
    assert_eq!(reg.get_certificate(1), Err(CertError::NotFoundError));
    assert!(reg.get_user_certificates(Address(1)).is_empty());
    assert!(reg.get_issuer_certificates(Address(1)).is_empty());
}

#[test]
fn issue_assigns_unique_monotonic_ids() {
    let issuer = Address(10);
    let mut reg = CertSkills::init();
    let c1 = reg
        .issue_certificate(issuer, Address(1), Skill::Skill1, Level::Basic)
        .unwrap();
    let c2 = reg
        .issue_certificate(issuer, Address(2), Skill::Skill1, Level::Intermediate)
        .unwrap();
    let c3 = reg
        .issue_certificate(issuer, Address(1), Skill::Skill2, Level::Advanced)
        .unwrap();
    assert_eq!(c1.id, 1);
    assert_eq!(c2.id, 2);
    assert_eq!(c3.id, 3);
    assert_eq!(reg.last_certificate_id(), 3);
    assert!(c1.id != c2.id && c2.id != c3.id && c1.id != c3.id);
}

#[test]
fn self_certification_rejected_and_state_unchanged() {
    let a = Address(7);
    let mut reg = CertSkills::init();
    let r = reg.issue_certificate(a, a, Skill::Skill3, Level::Basic);
    assert_eq!(r, Err(CertError::SelfCertificationError));
    assert_eq!(reg.last_certificate_id(), 0);
    assert!(reg.get_user_certificates(a).is_empty());
    assert!(reg.get_issuer_certificates(a).is_empty());
    assert!(reg.address_certificates(a).is_empty());
    assert!(reg.address_issued_certificates(a).is_empty());
}

#[test]
fn duplicate_active_rejected_until_revoked() {
    let issuer = Address(1);
    let user = Address(2);
    let mut reg = CertSkills::init();
    let first = reg
        .issue_certificate(issuer, user, Skill::Skill4, Level::Basic)
        .unwrap();
    let dup = reg.issue_certificate(issuer, user, Skill::Skill4, Level::Advanced);
    assert_eq!(dup, Err(CertError::DuplicateActiveCertificateError));
    // Another issuer hits the same wall: the user already holds the skill.
    let dup_other = reg.issue_certificate(Address(3), user, Skill::Skill4, Level::Basic);
    assert_eq!(dup_other, Err(CertError::DuplicateActiveCertificateError));
    // A different skill is fine.
    assert!(reg
        .issue_certificate(issuer, user, Skill::Skill5, Level::Basic)
        .is_ok());
    // After revocation the skill is free again.
    reg.revoke_certificate(issuer, first.id).unwrap();
    let again = reg
        .issue_certificate(issuer, user, Skill::Skill4, Level::Advanced)
        .unwrap();
    assert_eq!(again.id, 3);
    assert_eq!(again.status, Status::Active);
}

#[test]
fn revoke_requires_original_issuer() {
    let issuer = Address(1);
    let user = Address(2);
    let stranger = Address(3);
    let mut reg = CertSkills::init();
    let cert = reg
        .issue_certificate(issuer, user, Skill::Skill1, Level::Basic)
        .unwrap();
    let r = reg.revoke_certificate(stranger, cert.id);
    assert_eq!(r, Err(CertError::UnauthorizedRevokeError));
    // Even the certificate's user may not revoke it.
    let r = reg.revoke_certificate(user, cert.id);
    assert_eq!(r, Err(CertError::UnauthorizedRevokeError));
    assert_eq!(reg.get_certificate(cert.id).unwrap().status, Status::Active);
}

#[test]
fn revoke_is_one_way() {
    let issuer = Address(1);
    let user = Address(2);
    let mut reg = CertSkills::init();
    let cert = reg
        .issue_certificate(issuer, user, Skill::Skill2, Level::Intermediate)
        .unwrap();
    assert_eq!(reg.revoke_certificate(issuer, cert.id), Ok(()));
    assert_eq!(reg.get_certificate(cert.id).unwrap().status, Status::Revoked);
    let r = reg.revoke_certificate(issuer, cert.id);
    assert_eq!(r, Err(CertError::AlreadyRevokedError));
    assert_eq!(reg.get_certificate(cert.id).unwrap().status, Status::Revoked);
}

#[test]
fn revoke_missing_id_not_found() {
    let mut reg = CertSkills::init();
    assert_eq!(
        reg.revoke_certificate(Address(1), 1),
        Err(CertError::NotFoundError)
    );
    reg.issue_certificate(Address(1), Address(2), Skill::Skill1, Level::Basic)
        .unwrap();
    assert_eq!(
        reg.revoke_certificate(Address(1), 0),
        Err(CertError::NotFoundError)
    );
    assert_eq!(
        reg.revoke_certificate(Address(1), 2),
        Err(CertError::NotFoundError)
    );
}

#[test]
fn issuer_listing_holds_exactly_the_active_ones() {
    let i1 = Address(1);
    let i2 = Address(2);
    let mut reg = CertSkills::init();
    let a = reg
        .issue_certificate(i1, Address(10), Skill::Skill1, Level::Basic)
        .unwrap();
    let b = reg
        .issue_certificate(i1, Address(11), Skill::Skill2, Level::Advanced)
        .unwrap();
    let c = reg
        .issue_certificate(i2, Address(10), Skill::Skill3, Level::Basic)
        .unwrap();
    assert_eq!(reg.get_issuer_certificates(i1), vec![a, b]);
    assert_eq!(reg.get_issuer_certificates(i2), vec![c]);
    reg.revoke_certificate(i1, a.id).unwrap();
    // Gone from the issuer's active listing ...
    assert_eq!(reg.get_issuer_certificates(i1), vec![b]);
    // ... but still discoverable by id and through the user listing.
    let a_revoked = Certificate {
        status: Status::Revoked,
        ..a
    };
    assert_eq!(reg.get_certificate(a.id), Ok(a_revoked));
    assert_eq!(reg.get_user_certificates(Address(10)), vec![a_revoked, c]);
    // The issued-id set also keeps the revoked id.
    assert_eq!(reg.address_issued_certificates(i1), vec![a.id, b.id]);
    assert_eq!(reg.address_certificates(Address(10)), vec![a.id, c.id]);
}

#[test]
fn end_to_end_scenario() {
    let issuer_a = Address(100);
    let user_b = Address(200);
    let mut reg = CertSkills::init();

    let first = reg
        .issue_certificate(issuer_a, user_b, Skill::Skill1, Level::Basic)
        .unwrap();
    assert_eq!(first.id, 1);
    assert_eq!(first.status, Status::Active);
    assert_eq!(first.skill, Skill::Skill1);
    assert_eq!(first.level, Level::Basic);
    assert_eq!(first.user_address, user_b);
    assert_eq!(first.issuer_address, issuer_a);

    let dup = reg.issue_certificate(issuer_a, user_b, Skill::Skill1, Level::Basic);
    assert_eq!(dup, Err(CertError::DuplicateActiveCertificateError));

    assert_eq!(reg.revoke_certificate(issuer_a, 1), Ok(()));
    assert_eq!(reg.get_certificate(1).unwrap().status, Status::Revoked);

    let second = reg
        .issue_certificate(issuer_a, user_b, Skill::Skill1, Level::Advanced)
        .unwrap();
    assert_eq!(second.id, 2);
    assert_eq!(second.status, Status::Active);

    let by_user = reg.get_user_certificates(user_b);
    assert_eq!(by_user.len(), 2);
    assert_eq!(by_user[0].id, 1);
    assert_eq!(by_user[0].status, Status::Revoked);
    assert_eq!(by_user[1].id, 2);
    assert_eq!(by_user[1].status, Status::Active);

    let active_by_issuer = reg.get_issuer_certificates(issuer_a);
    assert_eq!(active_by_issuer.len(), 1);
    assert_eq!(active_by_issuer[0].id, 2);
}
