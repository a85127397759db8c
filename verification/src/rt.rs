//! Helpers for jobs built by generated code.

use crate::error::{ParcodeError, Result};
use crate::format::ChildRef;
use crate::graph::{JobConfig, SerializationJob};
use vstd::prelude::*;

verus! {

/// A job with a configuration of its own: it serializes as the job it wraps
/// and reports the given configuration.
pub struct ConfiguredJob<J> {
    config: JobConfig,
    inner: Box<J>,
}

impl<J> ConfiguredJob<J> {
    /// The configuration reported by the job.
    pub closed spec fn spec_config_of(&self) -> JobConfig {
        self.config
    }

    /// The wrapped job.
    pub closed spec fn spec_inner(&self) -> J {
        *self.inner
    }

    /// Wraps `inner` so that it reports `config`.
    pub fn new(inner: Box<J>, config: JobConfig) -> (r: Self)
        ensures
            r.spec_inner() == *inner,
            r.spec_config_of() == config,
    {
        ConfiguredJob { config, inner }
    }
}

impl<'a, J: SerializationJob<'a>> SerializationJob<'a> for ConfiguredJob<J> {
    open spec fn spec_execute(&self, children_refs: Seq<ChildRef>) -> Option<Seq<u8>> {
        self.spec_inner().spec_execute(children_refs)
    }

    open spec fn spec_execute_error(&self, children_refs: Seq<ChildRef>) -> ParcodeError {
        self.spec_inner().spec_execute_error(children_refs)
    }

    open spec fn spec_config(&self) -> JobConfig {
        self.spec_config_of()
    }

    open spec fn spec_estimated_size(&self) -> usize {
        self.spec_inner().spec_estimated_size()
    }

    fn execute(&self, children_refs: &[ChildRef]) -> (r: Result<Vec<u8>>) {
        self.inner.execute(children_refs)
    }

    fn estimated_size(&self) -> (r: usize) {
        self.inner.estimated_size()
    }

    fn config(&self) -> (r: JobConfig) {
        self.config
    }
}

/// A job whose payload was encoded up front: the bytes, or the message of the
/// encoding error, which the job reports when it runs.
pub struct PayloadJob {
    /// The encoded payload, or the encoding error.
    pub payload: core::result::Result<Vec<u8>, String>,
    /// The configuration of the job.
    pub config: JobConfig,
}

impl PayloadJob {
    /// A job producing `payload`.
    pub fn new(payload: Vec<u8>, config: JobConfig) -> (r: Self)
        ensures
            r.payload matches Ok(p) && p@ == payload@,
            r.config == config,
    {
        PayloadJob { payload: Ok(payload), config }
    }

    /// A job whose encoding failed with `message`; running it fails.
    pub fn failed(message: String, config: JobConfig) -> (r: Self)
        ensures
            r.payload is Err,
            r.config == config,
    {
        PayloadJob { payload: Err(message), config }
    }
}

impl<'a> SerializationJob<'a> for PayloadJob {
    open spec fn spec_execute(&self, children_refs: Seq<ChildRef>) -> Option<Seq<u8>> {
        match self.payload {
            Ok(p) => Some(p@),
            Err(_) => None,
        }
    }

    open spec fn spec_execute_error(&self, children_refs: Seq<ChildRef>) -> ParcodeError {
        match self.payload {
            Err(m) => ParcodeError::Serialization(m),
            Ok(_) => vstd::pervasive::arbitrary(),
        }
    }

    open spec fn spec_config(&self) -> JobConfig {
        self.config
    }

    open spec fn spec_estimated_size(&self) -> usize {
        match self.payload {
            Ok(p) => p@.len() as usize,
            Err(_) => 0,
        }
    }

    fn execute(&self, children_refs: &[ChildRef]) -> (r: Result<Vec<u8>>) {
        match &self.payload {
            Ok(p) => {
                let mut out: Vec<u8> = Vec::new();
                let mut i: usize = 0;
                while i < p.len()
                    invariant
                        i <= p@.len(),
                        out@ == p@.subrange(0, i as int),
                    decreases p@.len() - i,
                {
                    out.push(p[i]);
                    i = i + 1;
                }
                assert(out@ =~= p@);
                Ok(out)
            },
            Err(m) => Err(ParcodeError::Serialization(m.clone())),
        }
    }

    fn estimated_size(&self) -> (r: usize)
        ensures
            r == match self.payload {
                Ok(p) => p@.len(),
                Err(_) => 0,
            },
    {
        match &self.payload {
            Ok(p) => p.len(),
            Err(_) => 0,
        }
    }

    fn config(&self) -> (r: JobConfig) {
        self.config
    }
}

} // verus!
