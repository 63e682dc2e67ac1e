//! Control messages that pass a file descriptor from one process to another.
use crate::index;
use crate::index::align_up;
use vstd::prelude::*;

verus! {

pub const SOL_SOCKET: i32 = 1;

pub const SCM_RIGHTS: i32 = 1;

/// Bytes of a file descriptor.
pub const FD_BYTES: usize = 4;

/// Bytes of a machine word.
pub const WORD_BYTES: usize = usize::BITS as usize / 8;

/// Bytes of the header of a control message.
pub const CMSGHDR_BYTES: usize = WORD_BYTES + 8;

/// The header of a control message.
#[derive(Clone, Copy, PartialEq, Eq, Structural, Debug)]
pub struct Cmsghdr {
    pub cmsg_len: usize,
    pub cmsg_level: i32,
    pub cmsg_type: i32,
}

/// The least multiple of a machine word that is not below `len`.
pub open spec fn aligned(len: int) -> int {
    (len + WORD_BYTES - 1) / (WORD_BYTES as int) * WORD_BYTES
}

pub fn cmsg_align(len: usize) -> (r: usize)
    requires
        len + WORD_BYTES <= usize::MAX,
    ensures
        r == aligned(len as int),
        r % WORD_BYTES == 0,
        len <= r < len + WORD_BYTES,
{
    proof {
        index::lemma_small_powers_of_two();
    }
    let r: usize = align_up(len, WORD_BYTES);
    proof {
        lemma_word();
        if WORD_BYTES == 8 {
            assert(r == (len + 7) / 8 * 8);
        } else {
            assert(r == (len + 3) / 4 * 4);
        }
    }
    r
}

/// A machine word has four or eight bytes.
proof fn lemma_word()
    ensures
        WORD_BYTES == 4 || WORD_BYTES == 8,
        aligned(CMSGHDR_BYTES as int) == CMSGHDR_BYTES,
{
    assert(usize::BITS == 32 || usize::BITS == 64);
    if WORD_BYTES == 8 {
        assert(aligned(16) == 16);
    } else {
        assert(WORD_BYTES == 4);
        assert(CMSGHDR_BYTES == 12);
        assert(15int / 4 == 3);
    }
}

/// The length of a control message with `len` bytes of data.
pub fn cmsg_len(len: usize) -> (r: usize)
    requires
        CMSGHDR_BYTES + len <= usize::MAX,
    ensures
        r == CMSGHDR_BYTES + len,
{
    proof {
        lemma_word();
    }
    cmsg_align(CMSGHDR_BYTES) + len
}

/// The space that a control message with `len` bytes of data takes.
pub fn cmsg_space(len: usize) -> (r: usize)
    requires
        CMSGHDR_BYTES + len + WORD_BYTES <= usize::MAX,
    ensures
        r == CMSGHDR_BYTES + aligned(len as int),
{
    proof {
        lemma_word();
    }
    cmsg_align(CMSGHDR_BYTES) + cmsg_align(len)
}

/// The space for the control message that passes a file descriptor.
pub fn control_bytes() -> (r: usize)
    ensures
        r == CMSGHDR_BYTES + aligned(FD_BYTES as int),
{
    proof {
        lemma_word();
        lemma_fd_space();
    }
    cmsg_space(FD_BYTES)
}

pub proof fn lemma_fd_space()
    ensures
        aligned(FD_BYTES as int) == WORD_BYTES,
        FD_BYTES <= WORD_BYTES,
{
    lemma_word();
    if WORD_BYTES == 8 {
        assert(11int / 8 == 1);
    } else {
        assert(7int / 4 == 1);
    }
}

/// The header of a message that passes a file descriptor.
pub open spec fn fd_header() -> Cmsghdr {
    Cmsghdr {
        cmsg_len: (CMSGHDR_BYTES + FD_BYTES) as usize,
        cmsg_level: SOL_SOCKET,
        cmsg_type: SCM_RIGHTS,
    }
}

/// The header of a message that passes a file descriptor.
pub fn header_for_fd() -> (r: Cmsghdr)
    ensures
        r == fd_header(),
{
    proof {
        lemma_word();
    }
    Cmsghdr { cmsg_len: cmsg_len(FD_BYTES), cmsg_level: SOL_SOCKET, cmsg_type: SCM_RIGHTS }
}

/// What became of an attempt to send.
#[derive(Clone, Copy, PartialEq, Eq, Structural, Debug)]
pub enum SendStep {
    Sent,
    Retry,
    Failed,
}

/// What became of an attempt to send: `sent` is what the system returned, `interrupted`
/// whether its error was an interruption.
pub fn send_step(sent: isize, interrupted: bool) -> (r: SendStep)
    ensures
        r == (if sent >= 0 {
            SendStep::Sent
        } else if interrupted {
            SendStep::Retry
        } else {
            SendStep::Failed
        }),
{
    if sent >= 0 {
        SendStep::Sent
    } else if interrupted {
        SendStep::Retry
    } else {
        SendStep::Failed
    }
}

/// Why no file descriptor was received.
#[derive(Clone, Copy, PartialEq, Eq, Structural, Debug)]
pub enum RecvError {
    /// The system reported an error.
    System,
    /// The message came without a control message for a file descriptor.
    MissingControl,
    /// The control message passes no file descriptor.
    InvalidControl,
}

/// What was received: the system returned `received`, and the control message has `controllen`
/// bytes, starts with `header` and holds `fd`. Nothing at the end of the stream.
pub open spec fn reception(
    received: isize,
    controllen: usize,
    header: Cmsghdr,
    fd: i32,
) -> Result<Option<i32>, RecvError> {
    if received < 0 {
        Err(RecvError::System)
    } else if received == 0 {
        Ok(None)
    } else if controllen < CMSGHDR_BYTES + FD_BYTES {
        Err(RecvError::MissingControl)
    } else if header.cmsg_level != SOL_SOCKET || header.cmsg_type != SCM_RIGHTS || header.cmsg_len
        < CMSGHDR_BYTES + FD_BYTES {
        Err(RecvError::InvalidControl)
    } else {
        Ok(Some(fd))
    }
}

/// The file descriptor that was received.
pub fn received_fd(received: isize, controllen: usize, header: Cmsghdr, fd: i32) -> (r: Result<
    Option<i32>,
    RecvError,
>)
    ensures
        r == reception(received, controllen, header, fd),
{
    proof {
        lemma_word();
    }
    if received < 0 {
        return Err(RecvError::System);
    }
    if received == 0 {
        return Ok(None);
    }
    let least: usize = cmsg_len(FD_BYTES);
    if controllen < least {
        return Err(RecvError::MissingControl);
    }
    if header.cmsg_level != SOL_SOCKET || header.cmsg_type != SCM_RIGHTS || header.cmsg_len
        < least {
        return Err(RecvError::InvalidControl);
    }
    Ok(Some(fd))
}

/// A message that was sent to pass a file descriptor is received as that file descriptor,
/// and fits the space that both sides provide.
pub proof fn law_passed_fd_is_received(received: isize, fd: i32)
    requires
        received > 0,
    ensures
        CMSGHDR_BYTES + FD_BYTES <= CMSGHDR_BYTES + aligned(FD_BYTES as int) <= usize::MAX,
        reception(
            received,
            (CMSGHDR_BYTES + aligned(FD_BYTES as int)) as usize,
            fd_header(),
            fd,
        ) == Ok::<Option<i32>, RecvError>(Some(fd)),
{
    lemma_word();
    lemma_fd_space();
}

} // verus!
