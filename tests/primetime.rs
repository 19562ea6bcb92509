use protohackers::primetime::{do_math_and_stuff, response, ProtoResult};

#[test]
fn answers_by_method_and_number() {
    assert_eq!(do_math_and_stuff(None), ProtoResult::Malformed);
    assert_eq!(do_math_and_stuff(Some(("isPrime".to_string(), Some(7)))), ProtoResult::IsPrime);
    assert_eq!(do_math_and_stuff(Some(("isPrime".to_string(), Some(8)))), ProtoResult::IsNotPrime);
    assert_eq!(do_math_and_stuff(Some(("isPrime".to_string(), None))), ProtoResult::IsNotPrime);
    assert_eq!(do_math_and_stuff(Some(("isprime".to_string(), Some(7)))), ProtoResult::Malformed);
    assert_eq!(do_math_and_stuff(Some(("".to_string(), Some(7)))), ProtoResult::Malformed);
}

#[test]
fn response_lines() {
    assert_eq!(response(ProtoResult::IsPrime), b"{\"method\":\"isPrime\",\"prime\":true}\n".to_vec());
    assert_eq!(response(ProtoResult::IsNotPrime), b"{\"method\":\"isPrime\",\"prime\":false}\n".to_vec());
    assert_eq!(response(ProtoResult::Malformed), b"malformed\n".to_vec());
}
