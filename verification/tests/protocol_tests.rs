use kvs::gen_cmd;
use kvs::protocol::{
    encode_request, error_reply, get_request, is_ok_reply, ok_reply, parse_command, parse_header,
    parse_request, parse_value_header, request_arg_count, rm_request, set_request, strip_line_end,
    value_reply, Request,
};

#[test]
fn test_cmd() {
    let cmd = gen_cmd();
    println!("{cmd}");
    assert_eq!(cmd, "*3\r\n$3\r\nSET\r\n$1\r\na\r\n$1\r\nb\r\n");
}

#[test]
fn requests_match_the_client_formats() {
    let k = "key".to_string();
    let v = "välue".to_string();
    assert_eq!(
        set_request(&k, &v),
        format!("*3\r\n$3\r\nSET\r\n${}\r\n{}\r\n${}\r\n{}\r\n", k.len(), k, v.len(), v).into_bytes()
    );
    assert_eq!(get_request(&k), b"*2\r\n$3\r\nGET\r\n$3\r\nkey\r\n".to_vec());
    assert_eq!(rm_request(&k), b"*2\r\n$2\r\nRM\r\n$3\r\nkey\r\n".to_vec());
    assert_eq!(encode_request(&Vec::new()), b"*0\r\n".to_vec());
}

fn lines_of(bytes: &[u8]) -> Vec<String> {
    let text = String::from_utf8(bytes.to_vec()).unwrap();
    text.split_inclusive('\n').map(|s| s.to_string()).collect()
}

#[test]
fn server_reads_back_client_requests() {
    let k = "naïve key".to_string();
    let v = "some value".to_string();
    let lines = lines_of(&set_request(&k, &v));
    assert_eq!(request_arg_count(&lines[0]), Some(3));
    let args = parse_request(&lines).ok().unwrap();
    assert_eq!(args, vec!["SET".to_string(), k.clone(), v.clone()]);
    match parse_command(&args) {
        Ok(Request::SetValue(a, b)) => {
            assert_eq!(a, k);
            assert_eq!(b, v);
        }
        _ => panic!("expected a set"),
    }
    let args = parse_request(&lines_of(&get_request(&k))).ok().unwrap();
    match parse_command(&args) {
        Ok(Request::GetValue(a)) => assert_eq!(a, k),
        _ => panic!("expected a get"),
    }
    let args = parse_request(&lines_of(&rm_request(&k))).ok().unwrap();
    match parse_command(&args) {
        Ok(Request::RemoveKey(a)) => assert_eq!(a, k),
        _ => panic!("expected a remove"),
    }
}

#[test]
fn malformed_requests_are_refused() {
    let bad_len = vec!["*1\r\n".to_string(), "$4\r\n".to_string(), "abc\r\n".to_string()];
    assert!(parse_request(&bad_len).is_err());
    let no_crlf = vec!["*1\r\n".to_string(), "$3\r\n".to_string(), "abc\n\n".to_string()];
    assert!(parse_request(&no_crlf).is_err());
    let too_few = vec!["*2\r\n".to_string(), "$3\r\n".to_string(), "abc\r\n".to_string()];
    assert!(parse_request(&too_few).is_err());
    assert!(parse_request(&vec!["*x\r\n".to_string()]).is_err());
    assert!(parse_request(&Vec::new()).is_err());
    let negative = vec!["*-3\r\n".to_string()];
    assert_eq!(parse_request(&negative).ok().unwrap(), Vec::<String>::new());
    assert!(parse_command(&Vec::new()).is_err());
    assert!(parse_command(&vec!["SET".to_string(), "k".to_string()]).is_err());
    assert!(parse_command(&vec!["FOO".to_string()]).is_err());
    match parse_command(&vec!["SHUTDOWN".to_string()]) {
        Ok(Request::Shutdown) => {}
        _ => panic!("expected shutdown"),
    }
}

#[test]
fn headers_read_like_str_parse() {
    assert_eq!(parse_header(&"*12\r\n".to_string()), Some(12));
    assert_eq!(parse_header(&"$-1\r\n".to_string()), Some(-1));
    assert_eq!(parse_header(&"$+7\r\n".to_string()), Some(7));
    assert_eq!(parse_header(&"$2147483647\r\n".to_string()), Some(i32::MAX));
    assert_eq!(parse_header(&"$2147483648\r\n".to_string()), None);
    assert_eq!(parse_header(&"$-2147483648\r\n".to_string()), Some(i32::MIN));
    assert_eq!(parse_header(&"$\r\n".to_string()), None);
    assert_eq!(parse_header(&"$1".to_string()), None);
    assert_eq!(request_arg_count(&"*-5\r\n".to_string()), Some(0));
}

#[test]
fn replies() {
    assert_eq!(ok_reply(), b"+OK\r\n".to_vec());
    assert_eq!(value_reply(&None), b"$-1\r\n".to_vec());
    assert_eq!(value_reply(&Some("héllo".to_string())), "$6\r\nhéllo\r\n".as_bytes().to_vec());
    assert_eq!(error_reply(&"get error: Key not found".to_string()), b"-ERR: get error: Key not found".to_vec());
    assert!(is_ok_reply(&"+OK\r\n".to_string()));
    assert!(!is_ok_reply(&"+OK\n".to_string()));
    assert_eq!(parse_value_header(&"$-1\r\n".to_string()), Some(-1));
    assert_eq!(parse_value_header(&"$5\r\n".to_string()), Some(5));
    assert_eq!(parse_value_header(&"-ERR: x".to_string()), None);
    assert_eq!(strip_line_end(&"value\r\n".to_string()), Some("value".to_string()));
    assert_eq!(strip_line_end(&"x".to_string()), None);
}

#[test]
fn client_reads_back_value_replies() {
    let v = "the value".to_string();
    let reply = value_reply(&Some(v.clone()));
    let lines = lines_of(&reply);
    let n = parse_value_header(&lines[0]).unwrap();
    assert_eq!(n as usize, v.len());
    assert_eq!(strip_line_end(&lines[1]).unwrap(), v);
}
