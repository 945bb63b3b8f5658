use opentelemetry_otlp::exporter::{finish_export, ExportError, OutgoingCall, TracesClient};
use opentelemetry_otlp::model::{AttrValue, Attribute, Resource, Scope, Span};

/// A stand-in for the channel and interceptor: it counts transport calls and
/// answers with a fixed interceptor result and transport result.
struct Double {
    interceptor: Result<String, String>,
    transport: Result<(), String>,
    calls: usize,
    last_request_groups: Option<usize>,
}

fn double(interceptor: Result<String, String>, transport: Result<(), String>) -> Double {
    Double { interceptor, transport, calls: 0, last_request_groups: None }
}

/// Drives one export through the library's steps, as a caller's loop does.
fn export(client: &mut TracesClient<Double>, batch: Vec<Span>) -> Result<(), ExportError<String>> {
    let interception = match client.begin_export::<String>() {
        Ok(h) => h.interceptor.clone(),
        Err(e) => return Err(e),
    };
    let call: OutgoingCall<String> = client.prepare_export(&batch, interception)?;
    let h = client.begin_export::<String>().ok().expect("still active");
    h.calls += 1;
    h.last_request_groups = Some(call.request.resource_groups.len());
    finish_export(h.transport.clone())
}

fn calls(client: &mut TracesClient<Double>) -> usize {
    client.begin_export::<String>().ok().map(|h| h.calls).unwrap_or(0)
}

fn span(scope: &str) -> Span {
    Span { resource: None, scope: Scope { name: scope.to_string(), version: None, schema_url: None } }
}

fn region_us() -> Resource {
    Resource {
        attributes: vec![Attribute { key: "region".to_string(), value: AttrValue::Str("us".to_string()) }],
        schema_url: None,
    }
}

#[test]
fn export_succeeds_when_transport_succeeds() {
    let mut c = TracesClient::new(double(Ok("ctx".to_string()), Ok(())));
    assert_eq!(export(&mut c, vec![span("a"), span("b")]), Ok(()));
    assert_eq!(calls(&mut c), 1);
}

#[test]
fn empty_batch_is_sent() {
    let mut c = TracesClient::new(double(Ok("ctx".to_string()), Ok(())));
    assert_eq!(export(&mut c, Vec::new()), Ok(()));
    let h = c.begin_export::<String>().ok().unwrap();
    assert_eq!(h.calls, 1);
    assert_eq!(h.last_request_groups, Some(1));
}

#[test]
fn shutdown_refuses_later_exports() {
    let mut c = TracesClient::new(double(Ok("ctx".to_string()), Ok(())));
    c.shutdown();
    assert!(c.is_shut_down());
    assert_eq!(export(&mut c, vec![span("a")]), Err(ExportError::AlreadyShutDown));
    assert_eq!(export(&mut c, Vec::new()), Err(ExportError::AlreadyShutDown));
    let prepared = c.prepare_export(&vec![span("a")], Ok::<String, String>("ctx".to_string()));
    assert!(matches!(prepared, Err(ExportError::AlreadyShutDown)));
}

#[test]
fn shutdown_twice_is_shutdown_once() {
    let mut c = TracesClient::new(double(Ok("ctx".to_string()), Ok(())));
    c.set_resource(region_us());
    c.shutdown();
    c.shutdown();
    c.shutdown();
    assert!(c.is_shut_down());
    assert_eq!(export(&mut c, vec![span("a")]), Err(ExportError::AlreadyShutDown));
}

#[test]
fn interceptor_failure_sends_nothing() {
    let mut c = TracesClient::new(double(Err("no token".to_string()), Ok(())));
    assert_eq!(export(&mut c, vec![span("a")]), Err(ExportError::InterceptorFailure("no token".to_string())));
    assert_eq!(calls(&mut c), 0);
}

#[test]
fn transport_failure_is_reported() {
    let mut c = TracesClient::new(double(Ok("ctx".to_string()), Err("unavailable".to_string())));
    assert_eq!(export(&mut c, vec![span("a")]), Err(ExportError::TransportFailure("unavailable".to_string())));
    assert_eq!(calls(&mut c), 1);
}

#[test]
fn set_resource_applies_to_later_exports() {
    let mut c = TracesClient::new(double(Ok("ctx".to_string()), Ok(())));
    c.set_resource(region_us());
    let call = c.prepare_export(&vec![span("a")], Ok::<String, String>("ctx".to_string())).ok().unwrap();
    assert_eq!(call.context, "ctx");
    assert_eq!(call.request.resource_groups.len(), 1);
    assert!(call.request.resource_groups[0].resource.same_as(&region_us()));
    let empty = c.prepare_export(&Vec::new(), Ok::<String, String>("ctx".to_string())).ok().unwrap();
    assert_eq!(empty.request.resource_groups.len(), 1);
    assert!(empty.request.resource_groups[0].resource.same_as(&region_us()));
    assert!(empty.request.resource_groups[0].scopes.is_empty());
    c.set_resource(Resource::empty());
    let call = c.prepare_export(&vec![span("a")], Ok::<String, String>("ctx".to_string())).ok().unwrap();
    assert!(call.request.resource_groups[0].resource.attributes.is_empty());
}

#[test]
fn set_resource_after_shutdown_is_harmless() {
    let mut c = TracesClient::new(double(Ok("ctx".to_string()), Ok(())));
    c.shutdown();
    c.set_resource(region_us());
    assert!(c.is_shut_down());
    assert_eq!(export(&mut c, vec![span("a")]), Err(ExportError::AlreadyShutDown));
}

#[test]
fn in_flight_export_outlives_shutdown() {
    let mut c = TracesClient::new(double(Ok("ctx".to_string()), Ok(())));
    let interception = c.begin_export::<String>().ok().unwrap().interceptor.clone();
    let call = c.prepare_export(&vec![span("a")], interception).ok().unwrap();
    c.shutdown();
    assert_eq!(call.request.resource_groups.len(), 1);
    assert_eq!(finish_export::<String>(Ok(())), Ok(()));
    assert_eq!(finish_export(Err("deadline".to_string())), Err(ExportError::TransportFailure("deadline".to_string())));
}
