use gateway_kinesis_lambda_test::config::Config;
use gateway_kinesis_lambda_test::handler::{BatchPlan, GatewayKinesisLambdaTestHandler};

fn batch(payloads: &[&[u8]]) -> Vec<Vec<u8>> {
    payloads.iter().map(|p| p.to_vec()).collect()
}

#[test]
fn instantiate_gateway_kinesis_lambda_test_handler() {
    let config = Config::new_default();
    let handler = GatewayKinesisLambdaTestHandler::new(config);
    assert_eq!(
        "INSERT INTO test_ks.test_table (id, description, count) VALUES (?, ?, ?)",
        handler.insert_text
    );
}

#[test]
fn process_kinesis_event() {
    let handler = GatewayKinesisLambdaTestHandler::new(Config::new_default());
    let records = batch(&[br#"{"id":1,"description":"blah","count":0}"#]);
    match handler.run(&records) {
        BatchPlan::Complete(items) => {
            assert_eq!(1, items.len());
            assert_eq!(1, items[0].id);
            assert_eq!("blah", items[0].description);
            assert_eq!(0, items[0].count);
        },
        BatchPlan::Truncated(..) => panic!("the single well-formed record should decode"),
    }
}

#[test]
fn well_formed_batch_plans_every_row_in_order() {
    let handler = GatewayKinesisLambdaTestHandler::new(Config::new_default());
    let records = batch(&[
        br#"{"id":10,"description":"first","count":1}"#,
        br#"{"id":20,"description":"second","count":2}"#,
        br#"{"id":30,"description":"third","count":3}"#,
    ]);
    match handler.run(&records) {
        BatchPlan::Complete(items) => {
            assert_eq!(3, items.len());
            assert_eq!(10, items[0].id);
            assert_eq!("first", items[0].description);
            assert_eq!(20, items[1].id);
            assert_eq!("second", items[1].description);
            assert_eq!(30, items[2].id);
            assert_eq!("third", items[2].description);
        },
        BatchPlan::Truncated(..) => panic!("all records are well-formed"),
    }
}

#[test]
fn malformed_second_record_short_circuits_after_first_row() {
    let handler = GatewayKinesisLambdaTestHandler::new(Config::new_default());
    let records = batch(&[br#"{"id":2,"description":"x","count":5}"#, br#"{"bad":"data"}"#]);
    match handler.run(&records) {
        BatchPlan::Complete(_) => panic!("the second record is malformed"),
        BatchPlan::Truncated(items, index, _) => {
            assert_eq!(1, index);
            assert_eq!(1, items.len());
            assert_eq!(2, items[0].id);
            assert_eq!("x", items[0].description);
            assert_eq!(5, items[0].count);
        },
    }
}

#[test]
fn malformed_first_record_plans_no_rows() {
    let handler = GatewayKinesisLambdaTestHandler::new(Config::new_default());
    let records = batch(&[b"garbage", br#"{"id":1,"description":"ok","count":0}"#]);
    match handler.run(&records) {
        BatchPlan::Complete(_) => panic!("the first record is malformed"),
        BatchPlan::Truncated(items, index, _) => {
            assert_eq!(0, index);
            assert_eq!(0, items.len());
        },
    }
}

#[test]
fn empty_batch_completes_with_no_rows() {
    let handler = GatewayKinesisLambdaTestHandler::new(Config::new_default());
    let records: Vec<Vec<u8>> = Vec::new();
    match handler.run(&records) {
        BatchPlan::Complete(items) => assert_eq!(0, items.len()),
        BatchPlan::Truncated(..) => panic!("an empty batch cannot fail"),
    }
}
