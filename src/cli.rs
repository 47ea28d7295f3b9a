//! Commands of the interactive client.
use vstd::prelude::*;
use vstd::string::StringSliceAdditionalSpecFns;
use vstd::utf8::*;
use crate::codec::decode_utf8_lossy;

verus! {

/// The bytes of `source `, the prefix of a command that runs a file of commands.
pub open spec fn source_prefix() -> Seq<u8> {
    seq![115u8, 111, 117, 114, 99, 101, 32]
}

/// The path that follows `source ` at the start of `command`.
pub fn extract_file_path_from_command(command: &str) -> (r: Option<String>)
    ensures
        r is Some <==> command.spec_bytes().len() >= 7 && command.spec_bytes().subrange(0, 7)
            == source_prefix(),
        r matches Some(p) ==> p@ == decode_utf8(
            command.spec_bytes().subrange(7, command.spec_bytes().len() as int),
        ),
{
    let b = command.as_bytes();
    let prefix: [u8; 7] = [115u8, 111, 117, 114, 99, 101, 32];
    if b.len() < 7 {
        return None;
    }
    let mut i: usize = 0;
    while i < 7
        invariant
            i <= 7,
            b@.len() >= 7,
            prefix@ == source_prefix(),
            b@ == command.spec_bytes(),
            forall|j: int| 0 <= j < i ==> b@[j] == prefix@[j],
        decreases 7 - i,
    {
        if b[i] != prefix[i] {
            assert(b@.subrange(0, 7)[i as int] != source_prefix()[i as int]);
            return None;
        }
        i += 1;
    }
    assert(b@.subrange(0, 7) =~= source_prefix());
    proof {
        let bs = b@;
        encode_utf8_valid_utf8(command@);
        assert(!is_continuation_byte(bs[6]));
        is_char_boundary_iff_not_is_continuation_byte(bs, 6);
        valid_utf8_split(bs, 6);
        let tail = bs.subrange(6, bs.len() as int);
        assert(tail[0] == 32u8);
        assert(length_of_first_scalar(tail) == 1);
        assert(pop_first_scalar(tail) =~= bs.subrange(7, bs.len() as int));
    }
    Some(decode_utf8_lossy(&b[7..b.len()]))
}

} // verus!
