//! `Addr` <-> `CanonicalAddr` conversion through an injected address api.
//!
//! The conversion itself is an external collaborator behind the [`Api`]
//! capability; this module supplies the engine-side rule: an empty address
//! is a distinguished empty value in both directions and never goes through
//! the api, so optional/unset addresses convert without spurious failures.

use vstd::prelude::*;
use crate::error::StdError;
use crate::storage::clone_bytes;

verus! {

/// An opaque binary payload.
#[derive(Debug)]
pub struct Binary(pub Vec<u8>);

/// A human-readable address: the bytes of its text form.
#[derive(Debug)]
pub struct Addr(pub Vec<u8>);

/// An address in canonical binary form.
#[derive(Debug)]
pub struct CanonicalAddr(pub Binary);

impl DeepView for Binary {
    type V = Seq<u8>;

    open spec fn deep_view(&self) -> Seq<u8> {
        self.0@
    }
}

impl DeepView for Addr {
    type V = Seq<u8>;

    open spec fn deep_view(&self) -> Seq<u8> {
        self.0@
    }
}

impl DeepView for CanonicalAddr {
    type V = Seq<u8>;

    open spec fn deep_view(&self) -> Seq<u8> {
        self.0.0@
    }
}

/// A conversion result with the converted value replaced by its view: what
/// the contracts of this module pin down, error and all.
pub open spec fn conv_view<T: DeepView>(r: Result<T, StdError>) -> Result<T::V, StdError> {
    match r {
        Ok(t) => Ok(t.deep_view()),
        Err(e) => Err(e),
    }
}

/// The injected address-conversion capability.  Each implementation fixes,
/// per input, whether conversion succeeds, what value it yields, and which
/// error it fails with; the executable methods must agree with that mapping.
pub trait Api {
    /// The canonical form the api gives each human address text, `None`
    /// where the api rejects it.
    spec fn canonical_of(&self, human: Seq<u8>) -> Option<Seq<u8>>;

    /// The human text the api gives each canonical form, `None` where the
    /// api rejects it.
    spec fn human_of(&self, canonical: Seq<u8>) -> Option<Seq<u8>>;

    /// The error returned where `canonical_of` rejects.
    spec fn canonical_err(&self, human: Seq<u8>) -> StdError;

    /// The error returned where `human_of` rejects.
    spec fn human_err(&self, canonical: Seq<u8>) -> StdError;

    /// Converts a human-readable address to its canonical form.
    fn addr_canonicalize(&self, human: &Addr) -> (r: Result<CanonicalAddr, StdError>)
        ensures
            match r {
                Ok(c) => self.canonical_of(human.0@) == Some(c.0.0@),
                Err(e) => self.canonical_of(human.0@) is None && e == self.canonical_err(human.0@),
            },
    ;

    /// Converts a canonical address back to its human-readable form.
    fn addr_humanize(&self, canonical: &CanonicalAddr) -> (r: Result<Addr, StdError>)
        ensures
            match r {
                Ok(a) => self.human_of(canonical.0.0@) == Some(a.0@),
                Err(e) => self.human_of(canonical.0.0@) is None && e == self.human_err(
                    canonical.0.0@,
                ),
            },
    ;
}

/// What canonicalizing one address text returns: the empty canonical form
/// for the empty text, else the api's mapping, with the api's error where it
/// rejects.
pub open spec fn canonize_spec_of<A: Api>(api: &A, human: Seq<u8>) -> Result<Seq<u8>, StdError> {
    if human.len() == 0 {
        Ok(Seq::empty())
    } else {
        match api.canonical_of(human) {
            Some(c) => Ok(c),
            None => Err(api.canonical_err(human)),
        }
    }
}

/// What humanizing one canonical form returns: the empty text for the empty
/// form, else the api's mapping, with the api's error where it rejects.
pub open spec fn humanize_spec_of<A: Api>(api: &A, canonical: Seq<u8>) -> Result<
    Seq<u8>,
    StdError,
> {
    if canonical.len() == 0 {
        Ok(Seq::empty())
    } else {
        match api.human_of(canonical) {
            Some(h) => Ok(h),
            None => Err(api.human_err(canonical)),
        }
    }
}

/// Attempting to canonicalize an empty address fails at the api.  This
/// function skips the api for an empty input and returns the empty canonical
/// address instead; any other input goes through `addr_canonicalize`, whose
/// result — the api's error included — comes back unchanged.
pub fn canonize_maybe_empty<A: Api>(api: &A, addr: &Addr) -> (r: Result<CanonicalAddr, StdError>)
    ensures
        conv_view(r) == canonize_spec_of(api, addr.0@),
{
    if addr.0.len() == 0 {
        Ok(CanonicalAddr(Binary(Vec::new())))
    } else {
        api.addr_canonicalize(addr)
    }
}

/// Attempting to humanize an empty canonical address fails at the api.  This
/// function skips the api for an empty input and returns the empty address
/// instead; any other input goes through `addr_humanize`, whose result — the
/// api's error included — comes back unchanged.
pub fn humanize_maybe_empty<A: Api>(api: &A, addr: &CanonicalAddr) -> (r: Result<Addr, StdError>)
    ensures
        conv_view(r) == humanize_spec_of(api, addr.0.0@),
{
    if addr.0.0.len() == 0 {
        Ok(Addr(Vec::new()))
    } else {
        api.addr_humanize(addr)
    }
}

/// Conversion to the human-readable form, lifted over containers.  Each
/// implementation fixes what it returns in `humanize_spec`, and `humanize`
/// is held to it.
pub trait Humanize<T: DeepView, A: Api> where Self: Sized {
    /// What this conversion returns, value and error alike, at the level of
    /// the api's mappings.
    spec fn humanize_spec(&self, api: &A) -> Result<T::V, StdError>;

    /// Converts, skipping the api for the distinguished empty value where
    /// the implementing type has one.
    fn humanize(self, api: &A) -> (r: Result<T, StdError>)
        ensures
            conv_view(r) == self.humanize_spec(api),
    ;
}

/// Conversion to the canonical form, lifted over containers.  Each
/// implementation fixes what it returns in `canonize_spec`, and `canonize`
/// is held to it.
pub trait Canonize<T: DeepView, A: Api> {
    /// What this conversion returns, value and error alike, at the level of
    /// the api's mappings.
    spec fn canonize_spec(&self, api: &A) -> Result<T::V, StdError>;

    /// Converts, skipping the api for the distinguished empty value where
    /// the implementing type has one.
    fn canonize(&self, api: &A) -> (r: Result<T, StdError>)
        ensures
            conv_view(r) == self.canonize_spec(api),
    ;
}

/// The element-wise humanize of a sequence: every element's converted view
/// in order, or the first element error in index order.
pub open spec fn seq_humanize_spec<T: Humanize<U, A>, U: DeepView, A: Api>(
    s: Seq<T>,
    api: &A,
) -> Result<Seq<U::V>, StdError>
    decreases s.len(),
{
    if s.len() == 0 {
        Ok(Seq::empty())
    } else {
        match seq_humanize_spec(s.drop_last(), api) {
            Ok(pre) => match s.last().humanize_spec(api) {
                Ok(v) => Ok(pre.push(v)),
                Err(e) => Err(e),
            },
            Err(e) => Err(e),
        }
    }
}

/// The element-wise canonize of a sequence: every element's converted view
/// in order, or the first element error in index order.
pub open spec fn seq_canonize_spec<T: Canonize<U, A>, U: DeepView, A: Api>(
    s: Seq<T>,
    api: &A,
) -> Result<Seq<U::V>, StdError>
    decreases s.len(),
{
    if s.len() == 0 {
        Ok(Seq::empty())
    } else {
        match seq_canonize_spec(s.drop_last(), api) {
            Ok(pre) => match s.last().canonize_spec(api) {
                Ok(v) => Ok(pre.push(v)),
                Err(e) => Err(e),
            },
            Err(e) => Err(e),
        }
    }
}

/// Once a prefix of the sequence fails to humanize, the whole sequence fails
/// with that same first error.
pub proof fn lemma_seq_humanize_err<T: Humanize<U, A>, U: DeepView, A: Api>(
    s: Seq<T>,
    api: &A,
    j: int,
)
    requires
        0 <= j <= s.len(),
        seq_humanize_spec(s.take(j), api) is Err,
    ensures
        seq_humanize_spec(s, api) == seq_humanize_spec(s.take(j), api),
    decreases s.len() - j,
{
    if j == s.len() {
        assert(s.take(j) =~= s);
    } else {
        assert(s.take(j + 1).drop_last() =~= s.take(j));
        assert(seq_humanize_spec(s.take(j + 1), api) == seq_humanize_spec(s.take(j), api));
        lemma_seq_humanize_err::<T, U, A>(s, api, j + 1);
    }
}

/// Once a prefix of the sequence fails to canonize, the whole sequence fails
/// with that same first error.
pub proof fn lemma_seq_canonize_err<T: Canonize<U, A>, U: DeepView, A: Api>(
    s: Seq<T>,
    api: &A,
    j: int,
)
    requires
        0 <= j <= s.len(),
        seq_canonize_spec(s.take(j), api) is Err,
    ensures
        seq_canonize_spec(s, api) == seq_canonize_spec(s.take(j), api),
    decreases s.len() - j,
{
    if j == s.len() {
        assert(s.take(j) =~= s);
    } else {
        assert(s.take(j + 1).drop_last() =~= s.take(j));
        assert(seq_canonize_spec(s.take(j + 1), api) == seq_canonize_spec(s.take(j), api));
        lemma_seq_canonize_err::<T, U, A>(s, api, j + 1);
    }
}

impl<A: Api> Humanize<Addr, A> for CanonicalAddr {
    open spec fn humanize_spec(&self, api: &A) -> Result<Seq<u8>, StdError> {
        humanize_spec_of(api, self.0.0@)
    }

    fn humanize(self, api: &A) -> (r: Result<Addr, StdError>) {
        humanize_maybe_empty(api, &self)
    }
}

impl<T: Humanize<U, A>, U: DeepView, A: Api> Humanize<Vec<U>, A> for Vec<T> {
    open spec fn humanize_spec(&self, api: &A) -> Result<Seq<U::V>, StdError> {
        seq_humanize_spec(self@, api)
    }

    #[verifier::loop_isolation(false)]
    fn humanize(self, api: &A) -> (r: Result<Vec<U>, StdError>) {
        let ghost orig = self@;
        let mut items = self;
        let mut out: Vec<U> = Vec::new();
        proof {
            assert(orig.take(0) =~= Seq::<T>::empty());
            assert(orig.skip(0) =~= orig);
            assert(out.deep_view() =~= Seq::<U::V>::empty());
        }
        while items.len() > 0
            invariant
                out@.len() + items@.len() == orig.len(),
                items@ == orig.skip(out@.len() as int),
                seq_humanize_spec(orig.take(out@.len() as int), api) == Ok::<
                    Seq<U::V>,
                    StdError,
                >(out.deep_view()),
            decreases items@.len(),
        {
            let ghost i = out@.len() as int;
            proof {
                assert(items@[0] == orig.skip(i)[0]);
                assert(orig.skip(i)[0] == orig[i]);
                assert(orig.take(i + 1).drop_last() =~= orig.take(i));
                assert(orig.take(i + 1).last() == orig[i]);
            }
            let x = items.remove(0);
            proof {
                assert(items@ =~= orig.skip(i + 1));
            }
            match x.humanize(api) {
                Ok(u) => {
                    let ghost pre_view = out.deep_view();
                    out.push(u);
                    proof {
                        assert(out.deep_view() =~= pre_view.push(u.deep_view()));
                    }
                },
                Err(e) => {
                    proof {
                        assert(orig[i].humanize_spec(api) == Err::<U::V, StdError>(e));
                        assert(seq_humanize_spec(orig.take(i + 1), api) == Err::<
                            Seq<U::V>,
                            StdError,
                        >(e));
                        lemma_seq_humanize_err::<T, U, A>(orig, api, i + 1);
                    }
                    return Err(e);
                },
            }
        }
        proof {
            assert(orig.take(out@.len() as int) =~= orig);
        }
        Ok(out)
    }
}

impl<A: Api> Canonize<CanonicalAddr, A> for Addr {
    open spec fn canonize_spec(&self, api: &A) -> Result<Seq<u8>, StdError> {
        canonize_spec_of(api, self.0@)
    }

    fn canonize(&self, api: &A) -> (r: Result<CanonicalAddr, StdError>) {
        canonize_maybe_empty(api, self)
    }
}

impl<T: Canonize<U, A>, U: DeepView, A: Api> Canonize<Vec<U>, A> for Vec<T> {
    open spec fn canonize_spec(&self, api: &A) -> Result<Seq<U::V>, StdError> {
        seq_canonize_spec(self@, api)
    }

    fn canonize(&self, api: &A) -> (r: Result<Vec<U>, StdError>) {
        let mut out: Vec<U> = Vec::new();
        let mut i: usize = 0;
        proof {
            assert(self@.take(0) =~= Seq::<T>::empty());
            assert(out.deep_view() =~= Seq::<U::V>::empty());
        }
        while i < self.len()
            invariant
                i <= self@.len(),
                out@.len() == i,
                seq_canonize_spec(self@.take(i as int), api) == Ok::<Seq<U::V>, StdError>(
                    out.deep_view(),
                ),
            decreases self@.len() - i,
        {
            proof {
                assert(self@.take(i + 1).drop_last() =~= self@.take(i as int));
                assert(self@.take(i + 1).last() == self@[i as int]);
            }
            match self[i].canonize(api) {
                Ok(u) => {
                    let ghost pre_view = out.deep_view();
                    out.push(u);
                    proof {
                        assert(out.deep_view() =~= pre_view.push(u.deep_view()));
                    }
                },
                Err(e) => {
                    proof {
                        assert(self@[i as int].canonize_spec(api) == Err::<U::V, StdError>(e));
                        assert(seq_canonize_spec(self@.take(i + 1), api) == Err::<
                            Seq<U::V>,
                            StdError,
                        >(e));
                        lemma_seq_canonize_err::<T, U, A>(self@, api, i + 1);
                    }
                    return Err(e);
                },
            }
            i = i + 1;
        }
        proof {
            assert(self@.take(self@.len() as int) =~= self@);
        }
        Ok(out)
    }
}

/// A toy address api that rejects: addresses longer than `max` bytes fail in
/// both directions, shorter ones convert to their bytes unchanged.  Lets a
/// test drive the failure paths of the conversion helpers.
pub struct BoundedApi {
    pub max: usize,
}

/// The error code `BoundedApi` fails canonicalization with.
pub const CANONICAL_TOO_LONG: u64 = 1;

/// The error code `BoundedApi` fails humanization with.
pub const HUMAN_TOO_LONG: u64 = 2;

impl Api for BoundedApi {
    open spec fn canonical_of(&self, human: Seq<u8>) -> Option<Seq<u8>> {
        if human.len() <= self.max {
            Some(human)
        } else {
            None
        }
    }

    open spec fn human_of(&self, canonical: Seq<u8>) -> Option<Seq<u8>> {
        if canonical.len() <= self.max {
            Some(canonical)
        } else {
            None
        }
    }

    open spec fn canonical_err(&self, human: Seq<u8>) -> StdError {
        StdError { code: CANONICAL_TOO_LONG }
    }

    open spec fn human_err(&self, canonical: Seq<u8>) -> StdError {
        StdError { code: HUMAN_TOO_LONG }
    }

    fn addr_canonicalize(&self, human: &Addr) -> (r: Result<CanonicalAddr, StdError>) {
        if human.0.len() <= self.max {
            Ok(CanonicalAddr(Binary(clone_bytes(&human.0))))
        } else {
            Err(StdError { code: CANONICAL_TOO_LONG })
        }
    }

    fn addr_humanize(&self, canonical: &CanonicalAddr) -> (r: Result<Addr, StdError>) {
        if canonical.0.0.len() <= self.max {
            Ok(Addr(clone_bytes(&canonical.0.0)))
        } else {
            Err(StdError { code: HUMAN_TOO_LONG })
        }
    }
}

/// A toy address api for tests: the canonical form of an address is its text
/// bytes unchanged, and both conversions always succeed.
pub struct MockApi;

impl Api for MockApi {
    open spec fn canonical_of(&self, human: Seq<u8>) -> Option<Seq<u8>> {
        Some(human)
    }

    open spec fn human_of(&self, canonical: Seq<u8>) -> Option<Seq<u8>> {
        Some(canonical)
    }

    open spec fn canonical_err(&self, human: Seq<u8>) -> StdError {
        StdError { code: 0 }
    }

    open spec fn human_err(&self, canonical: Seq<u8>) -> StdError {
        StdError { code: 0 }
    }

    fn addr_canonicalize(&self, human: &Addr) -> (r: Result<CanonicalAddr, StdError>) {
        Ok(CanonicalAddr(Binary(clone_bytes(&human.0))))
    }

    fn addr_humanize(&self, canonical: &CanonicalAddr) -> (r: Result<Addr, StdError>) {
        Ok(Addr(clone_bytes(&canonical.0.0)))
    }
}

} // verus!
