use vstd::prelude::*;

use crate::grouping::{group_spans, is_request_for, ResourceGroupView, WireRequest};
use crate::model::{spans_view, Resource, ResourceView, Span};

verus! {

/// Why an export failed. `E` is the cause reported by the interceptor or the
/// transport.
#[derive(Clone, Debug, PartialEq, Eq)]
pub enum ExportError<E> {
    /// The exporter was shut down before the export began; nothing was sent.
    AlreadyShutDown,
    /// Preparing the call failed; nothing was sent.
    InterceptorFailure(E),
    /// The call itself failed.
    TransportFailure(E),
}

/// What one export attempt hands to the transport: the context the interceptor
/// produced and the grouped request.
#[derive(Debug)]
pub struct OutgoingCall<C> {
    pub context: C,
    pub request: WireRequest,
}

/// An exporter's lifecycle and cached resource. While active it owns the
/// transport handle `H` (channel client and interceptor); shutting down releases
/// it for good.
#[derive(Debug)]
pub struct TracesClient<H> {
    inner: Option<H>,
    resource: Resource,
}

impl<H> TracesClient<H> {
    pub closed spec fn spec_handle(&self) -> Option<H> {
        self.inner
    }

    pub closed spec fn spec_resource(&self) -> ResourceView {
        self.resource@
    }

    pub open spec fn is_active(&self) -> bool {
        self.spec_handle() is Some
    }

    /// An active exporter over `handle`, whose resource is the empty one.
    pub fn new(handle: H) -> (c: Self)
        ensures
            c.spec_handle() == Some(handle),
            c.spec_resource().attributes.len() == 0,
            c.spec_resource().schema_url is None,
    {
        TracesClient { inner: Some(handle), resource: Resource::empty() }
    }

    pub fn is_shut_down(&self) -> (r: bool)
        ensures
            r == !self.is_active(),
    {
        self.inner.is_none()
    }

    /// `after` is `before` shut down: no handle, the same resource.
    pub open spec fn shut_down_from(before: Self, after: Self) -> bool {
        &&& after.spec_handle() is None
        &&& after.spec_resource() == before.spec_resource()
    }

    /// Releases the handle. Later exports fail; calling it again changes nothing.
    pub fn shutdown(&mut self)
        ensures
            Self::shut_down_from(*old(self), *final(self)),
    {
        self.inner = None;
    }

    /// Replaces the cached resource, used by every later export.
    pub fn set_resource(&mut self, resource: Resource)
        ensures
            final(self).spec_resource() == resource@,
            final(self).spec_handle() == old(self).spec_handle(),
    {
        self.resource = resource;
    }

    /// Shutting down a second time, or any later time, changes nothing: the
    /// exporter stays shut down with the same resource.
    pub proof fn lemma_shutdown_idempotent(first: Self, second: Self, third: Self)
        requires
            Self::shut_down_from(first, second),
            Self::shut_down_from(second, third),
        ensures
            !second.is_active(),
            third.spec_handle() == second.spec_handle(),
            third.spec_resource() == second.spec_resource(),
    {
    }

    /// A shut-down exporter is no longer active, which is what `begin_export` and
    /// `prepare_export` refuse with `AlreadyShutDown`.
    pub proof fn lemma_export_refused_after_shutdown(before: Self, after: Self)
        requires
            Self::shut_down_from(before, after),
        ensures
            !after.is_active(),
    {
    }

    /// The first step of an export: refuse it once shut down, else hand out the
    /// handle, through which the interceptor is asked for the call's context.
    pub fn begin_export<E>(&mut self) -> (r: Result<&mut H, ExportError<E>>)
        ensures
            old(self).is_active() <==> r is Ok,
            r matches Err(e) ==> e == ExportError::<E>::AlreadyShutDown,
            r matches Ok(h) ==> Some(*h) == old(self).spec_handle() && final(self).spec_handle() == Some(*final(h)),
            !old(self).is_active() ==> final(self).spec_handle() is None,
            final(self).spec_resource() == old(self).spec_resource(),
    {
        match self.inner.as_mut() {
            Some(h) => Ok(h),
            None => Err(ExportError::AlreadyShutDown),
        }
    }

    /// The step after the interceptor answered: fail with its cause, or group the
    /// batch under the cached resource into the request to send.
    pub fn prepare_export<C, E>(&self, batch: &Vec<Span>, interception: Result<C, E>) -> (r: Result<
        OutgoingCall<C>,
        ExportError<E>,
    >)
        ensures
            !self.is_active() ==> r == Err::<OutgoingCall<C>, ExportError<E>>(ExportError::AlreadyShutDown),
            self.is_active() ==> match interception {
                Err(e) => r == Err::<OutgoingCall<C>, ExportError<E>>(ExportError::InterceptorFailure(e)),
                Ok(c) => r matches Ok(call) && call.context == c && is_request_for(
                    spans_view(batch@),
                    self.spec_resource(),
                    call.request@,
                ),
            },
            self.is_active() && interception is Ok && batch@.len() == 0 ==> (r matches Ok(call)
                && call.request@ == seq![ResourceGroupView { resource: self.spec_resource(), scopes: Seq::empty() }]),
    {
        if self.inner.is_none() {
            return Err(ExportError::AlreadyShutDown);
        }
        match interception {
            Err(e) => Err(ExportError::InterceptorFailure(e)),
            Ok(context) => {
                let request = group_spans(batch, &self.resource);
                Ok(OutgoingCall { context, request })
            },
        }
    }
}

/// The last step of an export: the transport's answer, as the export's result.
pub fn finish_export<E>(outcome: Result<(), E>) -> (r: Result<(), ExportError<E>>)
    ensures
        match outcome {
            Ok(()) => r is Ok,
            Err(e) => r == Err::<(), ExportError<E>>(ExportError::TransportFailure(e)),
        },
{
    match outcome {
        Ok(()) => Ok(()),
        Err(e) => Err(ExportError::TransportFailure(e)),
    }
}

} // verus!
