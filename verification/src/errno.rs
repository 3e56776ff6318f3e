//! The reasons an operation is refused.

use vstd::prelude::*;

verus! {

/// Why a system call, or something underneath one, was refused.
#[derive(Clone, Copy, PartialEq, Eq, Debug, Structural)]
pub enum Errno {
    EINTR,
    EIO,
    EAGAIN,
    ENOMEM,
    EFAULT,
    ENODEV,
    EINVAL,
    EPIPE,
    EDESTADDRREQ,
    EMSGSIZE,
    EOPNOTSUPP,
    EADDRINUSE,
    EADDRNOTAVAIL,
    ENETDOWN,
    ENETUNREACH,
    ECONNRESET,
    EISCONN,
    ENOTCONN,
    ETIMEDOUT,
    ECONNREFUSED,
    EALREADY,
}

} // verus!
