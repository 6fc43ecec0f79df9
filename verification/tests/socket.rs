use pepperx_uinput_helper::socket::{configured_socket_path, insert_response};

fn bytes(s: &str) -> Option<Vec<u8>> {
    Some(s.as_bytes().to_vec())
}

#[test]
fn a_configured_path_is_taken_as_it_is() {
    assert_eq!(configured_socket_path(bytes("/tmp/s"), bytes("/run")), Ok(b"/tmp/s".to_vec()));
    assert_eq!(configured_socket_path(bytes(""), None), Ok(Vec::new()));
}

#[test]
fn the_runtime_directory_is_joined_as_paths_are() {
    for dir in ["/run/user/1000", "/run/user/1000/", "", "/", "rel"] {
        let expected = std::path::PathBuf::from(dir).join("pepper-x").join("uinput-helper.sock");
        assert_eq!(
            configured_socket_path(None, bytes(dir)),
            Ok(expected.to_str().unwrap().as_bytes().to_vec()),
            "{dir:?}"
        );
    }
    assert_eq!(
        configured_socket_path(None, Some(vec![0x2f, 0xff])),
        Ok(b"/\xff/pepper-x/uinput-helper.sock".to_vec())
    );
}

#[test]
fn without_either_there_is_no_path() {
    assert_eq!(
        configured_socket_path(None, None),
        Err("PEPPERX_UINPUT_HELPER_SOCKET or XDG_RUNTIME_DIR must be set".to_string())
    );
}

#[test]
fn responses_report_the_first_error() {
    let fine = insert_response(Ok(()), None);
    assert!(fine.ok && fine.error.is_none());
    let device = insert_response(Err("device".to_string()), Some("plan".to_string()));
    assert!(!device.ok);
    assert_eq!(device.error.as_deref(), Some("device"));
    let plan = insert_response(Ok(()), Some("plan".to_string()));
    assert!(!plan.ok);
    assert_eq!(plan.error.as_deref(), Some("plan"));
}
