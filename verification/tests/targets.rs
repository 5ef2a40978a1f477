use std::time::Duration;

use ibm_mq::target::{place, resolve, Named};
use ibm_mq::{IbmMqTransport, DEFAULT_CHANNEL};

const PLAIN: Named<'static> = Named {
    ibm_mq: None,
    mq: None,
};

fn under_ibm_mq<'a>(server: &'a str, path: &'a str) -> Named<'a> {
    Named {
        ibm_mq: Some((server, path)),
        mq: None,
    }
}

fn under_mq<'a>(server: &'a str, path: &'a str) -> Named<'a> {
    Named {
        ibm_mq: None,
        mq: Some((server, path)),
    }
}

fn refusal(target: &str, named: Named<'_>) -> String {
    let error = resolve("host:1414", "QM1", target, named)
        .err()
        .expect("refused");
    assert!(!error.retryable);
    error.message
}

#[test]
fn the_transport_names_itself_and_claims_nothing() {
    let mq = IbmMqTransport::new("host:1414", "QM1", "ORDERS").on_channel("XMIP.SVRCONN");
    assert_eq!(mq.name(), "ibm-mq");
    assert_eq!(mq.channel(), "XMIP.SVRCONN");
    assert_eq!(
        mq.resolve("mq://other:1414/QM2/Q", under_mq("other:1414", "QM2/Q"))
            .expect("full"),
        ("other:1414", "QM2", "Q")
    );
    assert_eq!(
        mq.resolve("other:1414/QM2/Q", PLAIN).expect("bare"),
        ("other:1414", "QM2", "Q")
    );
    assert_eq!(
        mq.resolve("Q", PLAIN).expect("queue"),
        ("host:1414", "QM1", "Q")
    );
}

#[test]
fn a_target_names_some_suffix_of_server_queue_manager_and_queue() {
    let on = |target, named| resolve("host:1414", "QM1", target, named).expect("resolving");
    assert_eq!(
        on(
            "ibm-mq://other:1414/QM2/Q",
            under_ibm_mq("other:1414", "QM2/Q")
        ),
        ("other:1414", "QM2", "Q")
    );
    assert_eq!(
        on("ibm-mq://other/QM2/Q", under_ibm_mq("other", "QM2/Q")),
        ("other", "QM2", "Q")
    );
    assert_eq!(
        on("mq://other/Q", under_mq("other", "Q")),
        ("other", "QM1", "Q")
    );
    assert_eq!(on("QM2/Q", PLAIN), ("host:1414", "QM2", "Q"));
    assert_eq!(on("/QM2//Q/", PLAIN), ("host:1414", "QM2", "Q"));
    assert_eq!(on("other:1/Q", PLAIN), ("other:1", "QM1", "Q"));
    assert_eq!(on("other:1", PLAIN), ("host:1414", "QM1", "other:1"));
}

#[test]
fn one_scheme_is_taken_before_the_other() {
    let both = Named {
        ibm_mq: Some(("first", "QM2/Q")),
        mq: Some(("second", "QM3/R")),
    };
    assert_eq!(
        resolve("host:1414", "QM1", "target", both).expect("resolving"),
        ("first", "QM2", "Q")
    );
}

#[test]
fn a_target_of_no_part_or_of_three_is_refused() {
    assert_eq!(
        refusal("only/three/parts", PLAIN),
        "\"only/three/parts\" is not <queue manager>/<queue> or <queue>"
    );
    assert_eq!(
        refusal("", PLAIN),
        "\"\" is not <queue manager>/<queue> or <queue>"
    );
    assert_eq!(
        refusal("//", PLAIN),
        "\"//\" is not <queue manager>/<queue> or <queue>"
    );
    assert_eq!(
        refusal("ibm-mq://host/", under_ibm_mq("host", "")),
        "\"ibm-mq://host/\" is not <queue manager>/<queue> or <queue>"
    );
    assert_eq!(
        refusal("a\"/b/c", PLAIN),
        "\"a\\\"/b/c\" is not <queue manager>/<queue> or <queue>"
    );
}

#[test]
fn a_path_names_the_queue_manager_and_queue_on_any_server() {
    assert_eq!(
        place("QM1", "t", "s", "QM2/Q").expect("two"),
        ("s", "QM2", "Q")
    );
    assert_eq!(place("QM1", "t", "s", "Q").expect("one"), ("s", "QM1", "Q"));
    assert_eq!(
        place("QM1", "t", "s", "a/b/c").err().expect("three").message,
        "\"t\" is not <queue manager>/<queue> or <queue>"
    );
}

#[test]
fn a_transport_is_what_it_was_told() {
    let mq = IbmMqTransport::new("host:1414", "QM1", "ORDERS");
    assert_eq!(mq.server(), "host:1414");
    assert_eq!(mq.channel(), DEFAULT_CHANNEL);
    assert_eq!(mq.channel(), "SYSTEM.DEF.SVRCONN");
    assert_eq!(mq.timeout(), None);
    let mq = mq.timing_out_after(Duration::from_secs(2));
    assert_eq!(mq.timeout(), Some(Duration::from_secs(2)));
    assert_eq!(
        IbmMqTransport::origin("host:1414", "QM1", "ORDERS"),
        "ibm-mq://host:1414/QM1/ORDERS?msgid="
    );
}
