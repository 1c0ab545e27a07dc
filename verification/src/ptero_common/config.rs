//! Configuration shared by the steganographic methods.
use rand::{Rng, RngCore};

use vstd::prelude::*;

use crate::ptero_common::method::MethodProgressStatus;
use crate::ptero_common::observer::EventNotifier;

verus! {

/// A random number generator chosen by the user: any `rand::RngCore`, held as a trait
/// object. A trait object of an outside trait cannot be declared to the verifier, so
/// it is held here, opaque.
#[verifier::external_body]
pub struct MethodRng {
    rng: Box<dyn RngCore>,
}

/// Puts `rng` into a box behind the `RngCore` trait object.
#[verifier::external_body]
fn boxed_rng<T: RngCore + 'static>(rng: T) -> MethodRng {
    MethodRng { rng: Box::new(rng) }
}

/// A number drawn from `rng` in `low..high` (`rand::Rng::gen_range`, which panics on an
/// empty range and otherwise returns a value of the range). Which value comes depends on
/// the state of the generator.
#[verifier::external_body]
pub fn gen_range(rng: &mut MethodRng, low: usize, high: usize) -> (res: usize)
    requires
        low < high,
    ensures
        low <= res < high,
{
    rng.rng.gen_range(low..high)
}

/// Common configuration for all steganographic methods.
pub struct CommonMethodConfig {
    /// Observers of [MethodProgressStatus], to track the progress of hiding/revealing.
    pub notifier: EventNotifier<MethodProgressStatus>,
    /// Random number generator used by methods.
    pub rng: MethodRng,
}

/// Builder of [CommonMethodConfig]; the random number generator must be given.
pub struct CommonMethodConfigBuilder {
    notifier: Option<EventNotifier<MethodProgressStatus>>,
    rng: Option<MethodRng>,
}

/// The error of building a configuration without a random number generator.
#[derive(Debug, Clone, Copy, PartialEq, Eq, Structural)]
pub struct CommonMethodConfigBuilderError;

impl CommonMethodConfigBuilderError {
    /// The message describing the error.
    pub fn message(&self) -> (res: &'static str)
        ensures
            res@ == "`rng` must be initialized"@,
    {
        "`rng` must be initialized"
    }
}

impl CommonMethodConfigBuilder {
    /// Whether a random number generator was given.
    pub closed spec fn has_rng(&self) -> bool {
        self.rng is Some
    }

    /// Whether a notifier was given.
    pub closed spec fn has_notifier(&self) -> bool {
        self.notifier is Some
    }

    /// A builder with nothing set.
    pub fn new() -> (res: Self)
        ensures
            !res.has_rng(),
            !res.has_notifier(),
    {
        CommonMethodConfigBuilder { notifier: None, rng: None }
    }

    /// Sets the random number generator.
    pub fn with_rng<T: RngCore + 'static>(self, rng: T) -> (res: Self)
        ensures
            res.has_rng(),
            res.has_notifier() == self.has_notifier(),
    {
        let mut builder = self;
        builder.rng = Some(boxed_rng(rng));
        builder
    }

    /// Sets the notifier.
    pub fn with_notifier(self, notifier: EventNotifier<MethodProgressStatus>) -> (res: Self)
        ensures
            res.has_rng() == self.has_rng(),
            res.has_notifier(),
    {
        let mut builder = self;
        builder.notifier = Some(notifier);
        builder
    }

    /// Builds the configuration; fails when no random number generator was given.
    /// Without a notifier given, the configuration has one with no subscriber.
    pub fn build(self) -> (res: Result<CommonMethodConfig, CommonMethodConfigBuilderError>)
        ensures
            res is Ok <==> self.has_rng(),
            res matches Ok(c) ==> (!self.has_notifier() ==> c.notifier.subscribers_of().len() == 0),
    {
        let notifier = match self.notifier {
            Some(n) => n,
            None => EventNotifier::new(),
        };
        match self.rng {
            Some(rng) => Ok(CommonMethodConfig { notifier, rng }),
            None => Err(CommonMethodConfigBuilderError),
        }
    }
}

impl CommonMethodConfig {
    /// Provides a builder for safe configuration construction.
    pub fn builder() -> (res: CommonMethodConfigBuilder)
        ensures
            !res.has_rng(),
            !res.has_notifier(),
    {
        CommonMethodConfigBuilder::new()
    }
}

} // verus!
