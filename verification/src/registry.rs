//! The registry state machine: certificates, their one-way Active -> Revoked
//! lifecycle, and the operations that issue, revoke and list them.

use vstd::prelude::*;

verus! {

/// The closed set of skills a certificate can attest.
#[derive(Clone, Copy, PartialEq, Eq, Structural, Debug)]
pub enum Skill {
    Skill1,
    Skill2,
    Skill3,
    Skill4,
    Skill5,
}

/// The competence level attested for a skill.
#[derive(Clone, Copy, PartialEq, Eq, Structural, Debug)]
pub enum Level {
    Basic,
    Intermediate,
    Advanced,
}

/// Certificate validity state; the only transition is Active -> Revoked.
#[derive(Clone, Copy, PartialEq, Eq, Structural, Debug)]
pub enum Status {
    Active,
    Revoked,
}

/// An opaque, fixed-size caller identity. The registry only ever compares
/// addresses for equality; it never interprets them.
#[derive(Clone, Copy, PartialEq, Eq, Structural, Debug)]
pub struct Address(pub u64);

/// A stored certificate. Every field but `status` is immutable after
/// issuance.
#[derive(Clone, Copy, PartialEq, Eq, Structural, Debug)]
pub struct Certificate {
    pub id: usize,
    pub skill: Skill,
    pub level: Level,
    pub status: Status,
    pub user_address: Address,
    pub issuer_address: Address,
}

/// Why an operation was refused. Every failure leaves the registry unchanged.
#[derive(Clone, Copy, PartialEq, Eq, Structural, Debug)]
pub enum CertError {
    /// The caller tried to certify itself.
    SelfCertificationError,
    /// The user already holds an Active certificate for this skill.
    DuplicateActiveCertificateError,
    /// No certificate is stored under the given id.
    NotFoundError,
    /// Only the issuer of a certificate may revoke it.
    UnauthorizedRevokeError,
    /// The certificate is already Revoked.
    AlreadyRevokedError,
}

/// The registry. It owns every certificate ever issued; the store is
/// append-only and the certificate with id `i` sits at index `i - 1`.
pub struct CertSkills {
    certs: Vec<Certificate>,
    last_certificate_id: usize,
}

/// `c` is an Active certificate attesting `skill` for `user`.
pub open spec fn is_active_for(c: Certificate, user: Address, skill: Skill) -> bool {
    c.user_address == user && c.skill == skill && c.status == Status::Active
}

/// Some stored certificate attests `skill` for `user` and is still Active.
pub open spec fn has_active(certs: Seq<Certificate>, user: Address, skill: Skill) -> bool {
    exists|i: int| 0 <= i < certs.len() && #[trigger] is_active_for(certs[i], user, skill)
}

/// `c` with its status flipped to Revoked; no other field changes.
pub open spec fn revoked(c: Certificate) -> Certificate {
    Certificate { status: Status::Revoked, ..c }
}

/// The certificates among `certs` held by `user`, Active or Revoked, in
/// store order (ascending id, which is issuance order).
pub open spec fn certs_of_user(certs: Seq<Certificate>, user: Address) -> Seq<Certificate>
    decreases certs.len(),
{
    if certs.len() == 0 {
        Seq::empty()
    } else if certs.last().user_address == user {
        certs_of_user(certs.drop_last(), user).push(certs.last())
    } else {
        certs_of_user(certs.drop_last(), user)
    }
}

/// The certificates among `certs` issued by `issuer` that are still Active,
/// in store order (ascending id, which is issuance order).
pub open spec fn active_of_issuer(certs: Seq<Certificate>, issuer: Address) -> Seq<Certificate>
    decreases certs.len(),
{
    if certs.len() == 0 {
        Seq::empty()
    } else if certs.last().issuer_address == issuer && certs.last().status == Status::Active {
        active_of_issuer(certs.drop_last(), issuer).push(certs.last())
    } else {
        active_of_issuer(certs.drop_last(), issuer)
    }
}

/// Every certificate among `certs` issued by `issuer`, Active or Revoked,
/// in store order.
pub open spec fn certs_of_issuer(certs: Seq<Certificate>, issuer: Address) -> Seq<Certificate>
    decreases certs.len(),
{
    if certs.len() == 0 {
        Seq::empty()
    } else if certs.last().issuer_address == issuer {
        certs_of_issuer(certs.drop_last(), issuer).push(certs.last())
    } else {
        certs_of_issuer(certs.drop_last(), issuer)
    }
}

/// The ids of a sequence of certificates, in the same order.
pub open spec fn ids_of(certs: Seq<Certificate>) -> Seq<usize>
    decreases certs.len(),
{
    if certs.len() == 0 {
        Seq::empty()
    } else {
        ids_of(certs.drop_last()).push(certs.last().id)
    }
}

/// The registry's invariants over the stored sequence:
/// ids are exactly the 1-based positions (so the counter is monotonic and no
/// id is ever reused), no certificate attests its own issuer, and a user
/// holds at most one Active certificate per skill.
pub open spec fn wf_certs(certs: Seq<Certificate>) -> bool {
    &&& forall|i: int| 0 <= i < certs.len() ==> (#[trigger] certs[i]).id == i + 1
    &&& forall|i: int|
        0 <= i < certs.len() ==> (#[trigger] certs[i]).user_address != certs[i].issuer_address
    &&& forall|i: int, j: int|
        0 <= i < certs.len() && 0 <= j < certs.len() && i != j
            && (#[trigger] certs[i]).user_address == (#[trigger] certs[j]).user_address
            && certs[i].skill == certs[j].skill ==> !(certs[i].status == Status::Active
            && certs[j].status == Status::Active)
}

/// No two stored certificates share an id: over any sequence of successful
/// issuances the well-formed store keeps ids unique.
pub proof fn lemma_ids_unique(certs: Seq<Certificate>)
    requires
        wf_certs(certs),
    ensures
        forall|i: int, j: int|
            0 <= i < certs.len() && 0 <= j < certs.len() && i != j ==> (#[trigger] certs[i]).id != (
            #[trigger] certs[j]).id,
{
}

/// The user listing is exact: it holds only certificates of `user` drawn
/// from the store, and every stored certificate of `user` appears in it.
pub proof fn lemma_certs_of_user_exact(certs: Seq<Certificate>, user: Address)
    ensures
        forall|k: int|
            0 <= k < certs_of_user(certs, user).len() ==> (#[trigger] certs_of_user(certs, user)[k]).user_address
                == user && certs.contains(certs_of_user(certs, user)[k]),
        forall|i: int|
            0 <= i < certs.len() && (#[trigger] certs[i]).user_address == user ==> certs_of_user(
                certs,
                user,
            ).contains(certs[i]),
    decreases certs.len(),
{
    if certs.len() > 0 {
        lemma_certs_of_user_exact(certs.drop_last(), user);
        let prefix = certs.drop_last();
        let listed = certs_of_user(certs, user);
        assert forall|k: int| 0 <= k < listed.len() implies (#[trigger] listed[k]).user_address
            == user && certs.contains(listed[k]) by {
            if k < certs_of_user(prefix, user).len() {
                assert(listed[k] == certs_of_user(prefix, user)[k]);
                let w = choose|w: int| 0 <= w < prefix.len() && prefix[w] == listed[k];
                assert(certs[w] == listed[k]);
            } else {
                assert(certs[certs.len() - 1] == listed[k]);
            }
        }
        assert forall|i: int|
            0 <= i < certs.len() && (#[trigger] certs[i]).user_address == user implies listed.contains(
            certs[i]) by {
            if i < certs.len() - 1 {
                assert(prefix[i] == certs[i]);
                assert(certs_of_user(prefix, user).contains(certs[i]));
                let w = choose|w: int|
                    0 <= w < certs_of_user(prefix, user).len() && certs_of_user(prefix, user)[w]
                        == certs[i];
                assert(listed[w] == certs[i]);
            } else {
                assert(listed.last() == certs[i]);
            }
        }
    }
}

/// The issuer listing is exact: it holds only Active certificates of
/// `issuer` drawn from the store, and every stored Active certificate of
/// `issuer` appears in it.
pub proof fn lemma_active_of_issuer_exact(certs: Seq<Certificate>, issuer: Address)
    ensures
        forall|k: int|
            0 <= k < active_of_issuer(certs, issuer).len() ==> (#[trigger] active_of_issuer(
                certs,
                issuer,
            )[k]).issuer_address == issuer && active_of_issuer(certs, issuer)[k].status
                == Status::Active && certs.contains(active_of_issuer(certs, issuer)[k]),
        forall|i: int|
            0 <= i < certs.len() && (#[trigger] certs[i]).issuer_address == issuer && certs[i].status
                == Status::Active ==> active_of_issuer(certs, issuer).contains(certs[i]),
    decreases certs.len(),
{
    if certs.len() > 0 {
        lemma_active_of_issuer_exact(certs.drop_last(), issuer);
        let prefix = certs.drop_last();
        let listed = active_of_issuer(certs, issuer);
        assert forall|k: int| 0 <= k < listed.len() implies (#[trigger] listed[k]).issuer_address
            == issuer && listed[k].status == Status::Active && certs.contains(listed[k]) by {
            if k < active_of_issuer(prefix, issuer).len() {
                assert(listed[k] == active_of_issuer(prefix, issuer)[k]);
                let w = choose|w: int| 0 <= w < prefix.len() && prefix[w] == listed[k];
                assert(certs[w] == listed[k]);
            } else {
                assert(certs[certs.len() - 1] == listed[k]);
            }
        }
        assert forall|i: int|
            0 <= i < certs.len() && (#[trigger] certs[i]).issuer_address == issuer
                && certs[i].status == Status::Active implies listed.contains(certs[i]) by {
            if i < certs.len() - 1 {
                assert(prefix[i] == certs[i]);
                assert(active_of_issuer(prefix, issuer).contains(certs[i]));
                let w = choose|w: int|
                    0 <= w < active_of_issuer(prefix, issuer).len() && active_of_issuer(
                        prefix,
                        issuer,
                    )[w] == certs[i];
                assert(listed[w] == certs[i]);
            } else {
                assert(listed.last() == certs[i]);
            }
        }
    }
}

/// Revoking a user's Active certificate for a skill frees that skill: the
/// well-formed store held no second Active certificate for the same user and
/// skill, so after the flip a new issuance for that pair is no longer a
/// duplicate (and, by `issue_certificate`'s contract, succeeds for any
/// caller other than the user).
pub proof fn lemma_revoke_frees_skill(certs: Seq<Certificate>, i: int)
    requires
        wf_certs(certs),
        0 <= i < certs.len(),
        certs[i].status == Status::Active,
    ensures
        !has_active(certs.update(i, revoked(certs[i])), certs[i].user_address, certs[i].skill),
{
    let updated = certs.update(i, revoked(certs[i]));
    assert forall|j: int| 0 <= j < updated.len() implies !is_active_for(
        updated[j],
        certs[i].user_address,
        certs[i].skill,
    ) by {
        if j != i {
            assert(updated[j] == certs[j]);
        }
    }
}

/// Revoking removes a certificate from the issuer's active listing, but the
/// record itself stays discoverable: it still appears, Revoked, in its
/// user's listing (and under its id, by `get_certificate`'s contract).
pub proof fn lemma_revoked_stays_discoverable(certs: Seq<Certificate>, i: int)
    requires
        0 <= i < certs.len(),
    ensures
        !active_of_issuer(certs.update(i, revoked(certs[i])), certs[i].issuer_address).contains(
            revoked(certs[i]),
        ),
        certs_of_user(certs.update(i, revoked(certs[i])), certs[i].user_address).contains(
            revoked(certs[i]),
        ),
{
    let updated = certs.update(i, revoked(certs[i]));
    lemma_active_of_issuer_exact(updated, certs[i].issuer_address);
    lemma_certs_of_user_exact(updated, certs[i].user_address);
    assert(updated[i] == revoked(certs[i]));
    if active_of_issuer(updated, certs[i].issuer_address).contains(revoked(certs[i])) {
        let k = choose|k: int|
            0 <= k < active_of_issuer(updated, certs[i].issuer_address).len() && active_of_issuer(
                updated,
                certs[i].issuer_address,
            )[k] == revoked(certs[i]);
        assert(active_of_issuer(updated, certs[i].issuer_address)[k].status == Status::Active);
    }
}

impl View for CertSkills {
    type V = Seq<Certificate>;

    closed spec fn view(&self) -> Seq<Certificate> {
        self.certs@
    }
}

impl CertSkills {
    /// The value of the id counter: the id handed out by the last successful
    /// issuance, 0 before any.
    pub closed spec fn last_id(self) -> usize {
        self.last_certificate_id
    }

    /// Well-formedness: the counter equals the number of stored certificates
    /// and the store satisfies the registry invariants.
    pub open spec fn wf(self) -> bool {
        &&& self.last_id() == self@.len()
        &&& wf_certs(self@)
    }

    /// Brings up an empty registry with the id counter at 0.
    pub fn init() -> (r: CertSkills)
        ensures
            r.wf(),
            r@ == Seq::<Certificate>::empty(),
            r.last_id() == 0,
    {
        CertSkills { certs: Vec::new(), last_certificate_id: 0 }
    }

    /// The id handed out by the last successful issuance.
    pub fn last_certificate_id(&self) -> (r: usize)
        ensures
            r == self.last_id(),
    {
        self.last_certificate_id
    }

    /// Issues a new certificate attesting `skill` at `level` for
    /// `user_address`, on behalf of `caller`. Fails, changing nothing, if the
    /// caller is the user or the user already holds an Active certificate
    /// for the skill; otherwise stores the certificate under the next id,
    /// Active, and returns it.
    #[verifier::loop_isolation(false)]
    pub fn issue_certificate(
        &mut self,
        caller: Address,
        user_address: Address,
        skill: Skill,
        level: Level,
    ) -> (r: Result<Certificate, CertError>)
        requires
            old(self).wf(),
            old(self)@.len() < usize::MAX,
        ensures
            final(self).wf(),
            caller == user_address ==> r == Err::<Certificate, CertError>(
                CertError::SelfCertificationError,
            ) && final(self)@ == old(self)@ && final(self).last_id() == old(self).last_id(),
            caller != user_address && has_active(old(self)@, user_address, skill) ==> r == Err::<
                Certificate,
                CertError,
            >(CertError::DuplicateActiveCertificateError) && final(self)@ == old(self)@ && final(self).last_id() == old(self).last_id(),
            caller != user_address && !has_active(old(self)@, user_address, skill) ==> ({
                let c = (Certificate {
                    id: (old(self).last_id() + 1) as usize,
                    skill,
                    level,
                    status: Status::Active,
                    user_address,
                    issuer_address: caller,
                });
                r == Ok::<Certificate, CertError>(c) && final(self)@ == old(self)@.push(c)
                    && final(self).last_id() == old(self).last_id() + 1
            }),
            forall|i: int|
                0 <= i < old(self)@.len() && (#[trigger] old(self)@[i]).status == Status::Revoked
                    ==> final(self)@[i].status == Status::Revoked,
    {
        if caller == user_address {
            return Err(CertError::SelfCertificationError);
        }
        let n = self.certs.len();
        let mut idx: usize = 0;
        while idx < n
            invariant
                n == self.certs@.len(),
                idx <= n,
                forall|i: int|
                    0 <= i < idx ==> !#[trigger] is_active_for(self.certs@[i], user_address, skill),
            decreases n - idx,
        {
            let c = self.certs[idx];
            if c.user_address == user_address && c.skill == skill && c.status == Status::Active {
                proof {
                    assert(is_active_for(self.certs@[idx as int], user_address, skill));
                }
                return Err(CertError::DuplicateActiveCertificateError);
            }
            idx += 1;
        }
        let new_id = self.last_certificate_id + 1;
        let cert = Certificate {
            id: new_id,
            skill,
            level,
            status: Status::Active,
            user_address,
            issuer_address: caller,
        };
        self.certs.push(cert);
        self.last_certificate_id = new_id;
        proof {
            let s = self.certs@;
            let prev = old(self)@;
            assert forall|i: int, j: int|
                0 <= i < s.len() && 0 <= j < s.len() && i != j && (#[trigger] s[i]).user_address
                    == (#[trigger] s[j]).user_address && s[i].skill == s[j].skill implies !(
            s[i].status == Status::Active && s[j].status == Status::Active) by {
                if i == s.len() - 1 && j < s.len() - 1 {
                    assert(s[j] == prev[j]);
                    assert(!is_active_for(prev[j], user_address, skill));
                } else if j == s.len() - 1 && i < s.len() - 1 {
                    assert(s[i] == prev[i]);
                    assert(!is_active_for(prev[i], user_address, skill));
                } else {
                    assert(s[i] == prev[i] && s[j] == prev[j]);
                }
            }
        }
        Ok(cert)
    }

    /// Revokes the certificate stored under `certificate_id`, on behalf of
    /// `caller`. Fails, changing nothing, if no certificate has that id, the
    /// caller is not its issuer, or it is already Revoked; otherwise flips
    /// its status to Revoked and changes no other field.
    pub fn revoke_certificate(&mut self, caller: Address, certificate_id: usize) -> (r: Result<
        (),
        CertError,
    >)
        requires
            old(self).wf(),
        ensures
            final(self).wf(),
            final(self).last_id() == old(self).last_id(),
            !(1 <= certificate_id <= old(self)@.len()) ==> r == Err::<(), CertError>(
                CertError::NotFoundError,
            ) && final(self)@ == old(self)@,
            1 <= certificate_id <= old(self)@.len() && caller != old(self)@[certificate_id
                - 1].issuer_address ==> r == Err::<(), CertError>(CertError::UnauthorizedRevokeError)
                && final(self)@ == old(self)@,
            1 <= certificate_id <= old(self)@.len() && caller == old(self)@[certificate_id
                - 1].issuer_address && old(self)@[certificate_id - 1].status == Status::Revoked
                ==> r == Err::<(), CertError>(CertError::AlreadyRevokedError) && final(self)@ == old(self)@,
            1 <= certificate_id <= old(self)@.len() && caller == old(self)@[certificate_id
                - 1].issuer_address && old(self)@[certificate_id - 1].status == Status::Active ==> r
                == Ok::<(), CertError>(()) && final(self)@ == old(self)@.update(
                certificate_id - 1,
                revoked(old(self)@[certificate_id - 1]),
            ),
            forall|i: int|
                0 <= i < old(self)@.len() && (#[trigger] old(self)@[i]).status == Status::Revoked
                    ==> final(self)@[i].status == Status::Revoked,
    {
        if certificate_id < 1 || certificate_id > self.certs.len() {
            return Err(CertError::NotFoundError);
        }
        let cert = self.certs[certificate_id - 1];
        if cert.issuer_address != caller {
            return Err(CertError::UnauthorizedRevokeError);
        }
        if cert.status == Status::Revoked {
            return Err(CertError::AlreadyRevokedError);
        }
        let new_cert = Certificate { status: Status::Revoked, ..cert };
        self.certs[certificate_id - 1] = new_cert;
        Ok(())
    }

    /// Looks up a certificate by id; a pure read.
    pub fn get_certificate(&self, certificate_id: usize) -> (r: Result<Certificate, CertError>)
        ensures
            1 <= certificate_id <= self@.len() ==> r == Ok::<Certificate, CertError>(
                self@[certificate_id - 1],
            ),
            !(1 <= certificate_id <= self@.len()) ==> r == Err::<Certificate, CertError>(
                CertError::NotFoundError,
            ),
    {
        if certificate_id >= 1 && certificate_id <= self.certs.len() {
            Ok(self.certs[certificate_id - 1])
        } else {
            Err(CertError::NotFoundError)
        }
    }

    /// Every certificate ever associated with `user_address`, Active or
    /// Revoked; a pure read.
    #[verifier::loop_isolation(false)]
    pub fn get_user_certificates(&self, user_address: Address) -> (r: Vec<Certificate>)
        ensures
            r@ == certs_of_user(self@, user_address),
    {
        let mut result: Vec<Certificate> = Vec::new();
        let n = self.certs.len();
        let mut idx: usize = 0;
        while idx < n
            invariant
                idx <= n,
                result@ == certs_of_user(self.certs@.take(idx as int), user_address),
            decreases n - idx,
        {
            let c = self.certs[idx];
            if c.user_address == user_address {
                result.push(c);
            }
            idx += 1;
            proof {
                let taken = self.certs@.take(idx as int);
                assert(taken.drop_last() =~= self.certs@.take(idx as int - 1));
                assert(taken.last() == self.certs@[idx as int - 1]);
            }
        }
        proof {
            assert(self.certs@.take(n as int) =~= self.certs@);
        }
        result
    }

    /// The certificates issued by `issuer_address` that are still Active;
    /// revoked ones are filtered out. A pure read.
    #[verifier::loop_isolation(false)]
    pub fn get_issuer_certificates(&self, issuer_address: Address) -> (r: Vec<Certificate>)
        ensures
            r@ == active_of_issuer(self@, issuer_address),
    {
        let mut result: Vec<Certificate> = Vec::new();
        let n = self.certs.len();
        let mut idx: usize = 0;
        while idx < n
            invariant
                idx <= n,
                result@ == active_of_issuer(self.certs@.take(idx as int), issuer_address),
            decreases n - idx,
        {
            let c = self.certs[idx];
            if c.issuer_address == issuer_address && c.status == Status::Active {
                result.push(c);
            }
            idx += 1;
            proof {
                let taken = self.certs@.take(idx as int);
                assert(taken.drop_last() =~= self.certs@.take(idx as int - 1));
                assert(taken.last() == self.certs@[idx as int - 1]);
            }
        }
        proof {
            assert(self.certs@.take(n as int) =~= self.certs@);
        }
        result
    }

    /// The ids of every certificate ever associated with `user_address`;
    /// membership is the point, though the ids come out ascending.
    #[verifier::loop_isolation(false)]
    pub fn address_certificates(&self, user_address: Address) -> (r: Vec<usize>)
        ensures
            r@ == ids_of(certs_of_user(self@, user_address)),
    {
        let mut result: Vec<usize> = Vec::new();
        let n = self.certs.len();
        let mut idx: usize = 0;
        while idx < n
            invariant
                idx <= n,
                result@ == ids_of(certs_of_user(self.certs@.take(idx as int), user_address)),
            decreases n - idx,
        {
            let c = self.certs[idx];
            if c.user_address == user_address {
                result.push(c.id);
            }
            idx += 1;
            proof {
                let taken = self.certs@.take(idx as int);
                let prev = self.certs@.take(idx as int - 1);
                assert(taken.drop_last() =~= prev);
                assert(taken.last() == self.certs@[idx as int - 1]);
                if taken.last().user_address == user_address {
                    assert(certs_of_user(taken, user_address).drop_last() =~= certs_of_user(
                        prev,
                        user_address,
                    ));
                }
            }
        }
        proof {
            assert(self.certs@.take(n as int) =~= self.certs@);
        }
        result
    }

    /// The ids of every certificate ever issued by `issuer_address`;
    /// membership is the point, though the ids come out ascending.
    #[verifier::loop_isolation(false)]
    pub fn address_issued_certificates(&self, issuer_address: Address) -> (r: Vec<usize>)
        ensures
            r@ == ids_of(certs_of_issuer(self@, issuer_address)),
    {
        let mut result: Vec<usize> = Vec::new();
        let n = self.certs.len();
        let mut idx: usize = 0;
        while idx < n
            invariant
                idx <= n,
                result@ == ids_of(certs_of_issuer(self.certs@.take(idx as int), issuer_address)),
            decreases n - idx,
        {
            let c = self.certs[idx];
            if c.issuer_address == issuer_address {
                result.push(c.id);
            }
            idx += 1;
            proof {
                let taken = self.certs@.take(idx as int);
                let prev = self.certs@.take(idx as int - 1);
                assert(taken.drop_last() =~= prev);
                assert(taken.last() == self.certs@[idx as int - 1]);
                if taken.last().issuer_address == issuer_address {
                    assert(certs_of_issuer(taken, issuer_address).drop_last() =~= certs_of_issuer(
                        prev,
                        issuer_address,
                    ));
                }
            }
        }
        proof {
            assert(self.certs@.take(n as int) =~= self.certs@);
        }
        result
    }
}

} // verus!
