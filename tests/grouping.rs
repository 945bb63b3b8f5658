use opentelemetry_otlp::grouping::{group_spans, WireRequest};
use opentelemetry_otlp::model::{AttrValue, Attribute, Resource, Scope, Span};

fn attr(key: &str, value: &str) -> Attribute {
    Attribute { key: key.to_string(), value: AttrValue::Str(value.to_string()) }
}

fn resource(attrs: Vec<Attribute>) -> Resource {
    Resource { attributes: attrs, schema_url: None }
}

fn scope(name: &str) -> Scope {
    Scope { name: name.to_string(), version: None, schema_url: None }
}

fn span(res: Option<Resource>, name: &str) -> Span {
    Span { resource: res, scope: scope(name) }
}

/// The groups as (resource group, scope name, positions), in order.
fn shape(req: &WireRequest) -> Vec<(usize, String, Vec<usize>)> {
    let mut out = Vec::new();
    for (r, g) in req.resource_groups.iter().enumerate() {
        for s in &g.scopes {
            out.push((r, s.scope.name.clone(), s.spans.clone()));
        }
    }
    out
}

#[test]
fn same_resource_two_scopes() {
    let a = span(Some(resource(vec![attr("service", "x")])), "lib1");
    let b = span(Some(resource(vec![attr("service", "x")])), "lib2");
    let req = group_spans(&vec![a, b], &Resource::empty());
    assert_eq!(req.resource_groups.len(), 1);
    assert_eq!(req.resource_groups[0].scopes.len(), 2);
    assert_eq!(shape(&req), vec![(0, "lib1".to_string(), vec![0]), (0, "lib2".to_string(), vec![1])]);
}

#[test]
fn attribute_equal_resources_collapse() {
    let r1 = resource(vec![attr("service", "x"), attr("host", "h")]);
    let r2 = resource(vec![attr("host", "h"), attr("service", "x")]);
    let batch = vec![span(Some(r1), "lib"), span(Some(r2), "lib")];
    let req = group_spans(&batch, &Resource::empty());
    assert_eq!(shape(&req), vec![(0, "lib".to_string(), vec![0, 1])]);
}

#[test]
fn different_schema_urls_stay_apart() {
    let r1 = resource(vec![attr("service", "x")]);
    let mut r2 = resource(vec![attr("service", "x")]);
    r2.schema_url = Some("https://schema/1".to_string());
    let req = group_spans(&vec![span(Some(r1), "lib"), span(Some(r2), "lib")], &Resource::empty());
    assert_eq!(req.resource_groups.len(), 2);
}

#[test]
fn typed_values_are_not_confused() {
    let r1 = resource(vec![Attribute { key: "n".to_string(), value: AttrValue::Int(1) }]);
    let r2 = resource(vec![attr("n", "1")]);
    let r3 = resource(vec![Attribute { key: "n".to_string(), value: AttrValue::Int(1) }]);
    assert!(!r1.same_as(&r2));
    assert!(r1.same_as(&r3));
    let req = group_spans(&vec![span(Some(r1), "lib"), span(Some(r2), "lib"), span(Some(r3), "lib")], &Resource::empty());
    assert_eq!(shape(&req), vec![(0, "lib".to_string(), vec![0, 2]), (1, "lib".to_string(), vec![1])]);
}

#[test]
fn scopes_compare_version_too() {
    let mut s2 = scope("lib");
    s2.version = Some("1.0".to_string());
    let batch = vec![span(None, "lib"), Span { resource: None, scope: s2 }, span(None, "lib")];
    let req = group_spans(&batch, &Resource::empty());
    assert_eq!(req.resource_groups.len(), 1);
    assert_eq!(req.resource_groups[0].scopes.len(), 2);
    assert_eq!(req.resource_groups[0].scopes[0].spans, vec![0, 2]);
    assert_eq!(req.resource_groups[0].scopes[1].spans, vec![1]);
    assert_eq!(req.resource_groups[0].scopes[1].scope.version, Some("1.0".to_string()));
}

#[test]
fn every_span_once_in_first_seen_order() {
    let rx = || Some(resource(vec![attr("service", "x")]));
    let ry = || Some(resource(vec![attr("service", "y")]));
    let batch = vec![
        span(ry(), "b"),
        span(rx(), "a"),
        span(ry(), "a"),
        span(ry(), "b"),
        span(rx(), "c"),
        span(rx(), "a"),
    ];
    let req = group_spans(&batch, &Resource::empty());
    assert_eq!(
        shape(&req),
        vec![
            (0, "b".to_string(), vec![0, 3]),
            (0, "a".to_string(), vec![2]),
            (1, "a".to_string(), vec![1, 5]),
            (1, "c".to_string(), vec![4]),
        ]
    );
    let mut all: Vec<usize> = shape(&req).into_iter().flat_map(|(_, _, v)| v).collect();
    all.sort();
    assert_eq!(all, (0..batch.len()).collect::<Vec<usize>>());
    assert!(matches!(&req.resource_groups[0].resource.attributes[0].value, AttrValue::Str(v) if v == "y"));
}

#[test]
fn spans_without_resource_use_fallback() {
    let fallback = resource(vec![attr("region", "us")]);
    let batch = vec![span(None, "lib"), span(Some(resource(vec![attr("region", "us")])), "lib")];
    let req = group_spans(&batch, &fallback);
    assert_eq!(shape(&req), vec![(0, "lib".to_string(), vec![0, 1])]);
    assert_eq!(req.resource_groups[0].resource.attributes[0].key, "region");
}

#[test]
fn empty_batch_keeps_the_fallback_resource() {
    let req = group_spans(&Vec::new(), &resource(vec![attr("region", "us")]));
    assert_eq!(req.resource_groups.len(), 1);
    assert!(req.resource_groups[0].resource.same_as(&resource(vec![attr("region", "us")])));
    assert!(req.resource_groups[0].scopes.is_empty());
}

#[test]
fn repeated_attributes_compare_as_sets() {
    let r1 = resource(vec![attr("a", "1"), attr("a", "1")]);
    let r2 = resource(vec![attr("a", "1")]);
    let r3 = resource(vec![attr("a", "1"), attr("b", "2")]);
    assert!(r1.same_as(&r2));
    assert!(!r2.same_as(&r3));
    assert!(!r3.same_as(&r2));
    let d1 = resource(vec![Attribute { key: "f".to_string(), value: AttrValue::DoubleBits(1.5f64.to_bits()) }]);
    let d2 = resource(vec![Attribute { key: "f".to_string(), value: AttrValue::DoubleBits(1.5f64.to_bits()) }]);
    assert!(d1.same_as(&d2));
}

#[test]
fn array_values_compare_by_kind_and_elements() {
    let arr = |v: AttrValue| resource(vec![Attribute { key: "tags".to_string(), value: v }]);
    let strs = arr(AttrValue::StrArray(vec!["a".to_string(), "b".to_string()]));
    let same = arr(AttrValue::StrArray(vec!["a".to_string(), "b".to_string()]));
    let other_order = arr(AttrValue::StrArray(vec!["b".to_string(), "a".to_string()]));
    let as_str = arr(AttrValue::Str("[a, b]".to_string()));
    assert!(strs.same_as(&same));
    assert!(!strs.same_as(&other_order));
    assert!(!strs.same_as(&as_str));
    assert!(arr(AttrValue::IntArray(vec![1, 2])).same_as(&arr(AttrValue::IntArray(vec![1, 2]))));
    assert!(!arr(AttrValue::IntArray(vec![1, 2])).same_as(&arr(AttrValue::IntArray(vec![1]))));
    assert!(!arr(AttrValue::BoolArray(vec![true])).same_as(&arr(AttrValue::BoolArray(vec![false]))));
    assert!(!arr(AttrValue::DoubleBitsArray(vec![1u64])).same_as(&arr(AttrValue::IntArray(vec![1]))));
    let req = group_spans(&vec![span(Some(strs), "lib"), span(Some(same), "lib")], &Resource::empty());
    assert_eq!(shape(&req), vec![(0, "lib".to_string(), vec![0, 1])]);
    assert!(matches!(&req.resource_groups[0].resource.attributes[0].value, AttrValue::StrArray(v) if v.len() == 2));
}
