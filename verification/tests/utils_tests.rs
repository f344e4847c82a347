use gemmy::utils::{bytes_to_price, get_timestamp_now_micros, price_to_bytes};

#[test]
fn it_converts_price_to_bytes() {
    let pass: Vec<u8> = vec![0, 0, 0, 0, 0, 0, 1, 0];
    let value: u64 = 256;
    let result = price_to_bytes(value);
    assert_eq!(pass, result);
}

#[test]
fn it_converts_bytes_to_price() {
    let pass: u64 = 256;
    let value: Vec<u8> = vec![0, 0, 0, 0, 0, 0, 1, 0];
    let result = bytes_to_price(value);
    assert_eq!(pass, result);
}

#[test]
fn it_generates_timestamp() {
    get_timestamp_now_micros();
}
