//! The helper's socket: where it is, and what is answered on it.

use vstd::prelude::*;
use vstd::utf8::{encode_utf8, is_ascii_chars_encode_utf8};

verus! {

/// The byte that separates the components of a path.
pub const SEPARATOR: u8 = 0x2f;

/// The answer to a request to insert text.
#[derive(Debug)]
pub struct UinputInsertResponse {
    pub ok: bool,
    pub error: Option<String>,
}

/// A path with one more component: a relative name, after a separator where the
/// path does not end in one already.
pub open spec fn joined(path: Seq<u8>, name: Seq<u8>) -> Seq<u8> {
    if path.len() == 0 || path.last() == SEPARATOR {
        path + name
    } else {
        path + seq![SEPARATOR] + name
    }
}

/// The path of the socket below a runtime directory.
pub open spec fn socket_below(runtime_dir: Seq<u8>) -> Seq<u8> {
    joined(
        joined(runtime_dir, encode_utf8("pepper-x"@)),
        encode_utf8("uinput-helper.sock"@),
    )
}

/// Adds a relative name to a path.
fn join(path: &mut Vec<u8>, name: &str)
    ensures
        final(path)@ == joined(old(path)@, encode_utf8(name@)),
{
    let bytes = name.as_bytes();
    if path.len() > 0 && path[path.len() - 1] != SEPARATOR {
        path.push(SEPARATOR);
    }
    let ghost start = path@;
    proof {
        assert(start + bytes@ =~= joined(old(path)@, bytes@));
        assert(start + bytes@.take(0) =~= start);
    }
    let mut i: usize = 0;
    while i < bytes.len()
        invariant
            i <= bytes@.len(),
            path@ == start + bytes@.take(i as int),
        decreases bytes@.len() - i,
    {
        path.push(bytes[i]);
        proof {
            assert(bytes@.take(i + 1) =~= bytes@.take(i as int).push(bytes@[i as int]));
            assert(path@ =~= start + bytes@.take(i + 1));
        }
        i = i + 1;
    }
    proof {
        assert(bytes@.take(i as int) =~= bytes@);
    }
}

/// The path of the helper's socket, in the bytes of the file system: the one that is
/// configured, or else one below the runtime directory.
pub fn configured_socket_path(socket: Option<Vec<u8>>, runtime_dir: Option<Vec<u8>>) -> (path: Result<
    Vec<u8>,
    String,
>)
    ensures
        match (socket, runtime_dir) {
            (Some(socket), _) => path == Ok::<Vec<u8>, String>(socket),
            (None, Some(dir)) => path is Ok && path->Ok_0@ == socket_below(dir@),
            (None, None) => path is Err && path->Err_0@
                == "PEPPERX_UINPUT_HELPER_SOCKET or XDG_RUNTIME_DIR must be set"@,
        },
{
    if let Some(socket) = socket {
        return Ok(socket);
    }
    match runtime_dir {
        None => Err("PEPPERX_UINPUT_HELPER_SOCKET or XDG_RUNTIME_DIR must be set".to_owned()),
        Some(dir) => {
            let mut path = dir;
            join(&mut path, "pepper-x");
            join(&mut path, "uinput-helper.sock");
            Ok(path)
        },
    }
}

/// The answer to a request, from what came of sending the planned actions to the
/// device and from why the text cannot be typed to its end, where it cannot.
pub fn insert_response(sent: Result<(), String>, plan_error: Option<String>) -> (response: UinputInsertResponse)
    ensures
        response.error == match sent {
            Err(error) => Some(error),
            Ok(()) => plan_error,
        },
        response.ok == (response.error is None),
{
    let error = match sent {
        Err(error) => Some(error),
        Ok(()) => plan_error,
    };
    UinputInsertResponse { ok: error.is_none(), error }
}

/// The socket below a runtime directory is `pepper-x/uinput-helper.sock` in it: the bytes
/// of the directory, a separator where they do not end in one, and these.
pub proof fn lemma_socket_below(runtime_dir: Seq<u8>)
    ensures
        socket_below(runtime_dir) == runtime_dir + (if runtime_dir.len() > 0 && runtime_dir.last()
            != 0x2f {
            seq![0x2fu8]
        } else {
            seq![]
        }) + encode_utf8("pepper-x/uinput-helper.sock"@),
{
    reveal_strlit("pepper-x");
    reveal_strlit("uinput-helper.sock");
    reveal_strlit("pepper-x/uinput-helper.sock");
    let dir = "pepper-x"@;
    let name = "uinput-helper.sock"@;
    let both = "pepper-x/uinput-helper.sock"@;
    is_ascii_chars_encode_utf8(dir);
    is_ascii_chars_encode_utf8(name);
    is_ascii_chars_encode_utf8(both);
    assert(dir[7] == 'x');
    assert(encode_utf8(dir)[7] == 'x' as u8);
    assert(both =~= dir + seq!['/'] + name);
    assert(encode_utf8(both) =~= encode_utf8(dir) + seq![0x2fu8] + encode_utf8(name));
    let start = joined(runtime_dir, encode_utf8(dir));
    assert(start.last() == encode_utf8(dir)[7]);
    assert(socket_below(runtime_dir) =~= runtime_dir + (if runtime_dir.len() > 0
        && runtime_dir.last() != 0x2f {
        seq![0x2fu8]
    } else {
        seq![]
    }) + encode_utf8(both));
}

} // verus!
