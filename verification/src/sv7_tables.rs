//! Symbols and code word lengths of the older stream format's small codes.

use vstd::prelude::*;

verus! {

/// Scalefactor methods.
pub const SCFI_VLC: [(i32, u8); 4] = [(1, 1), (3, 2), (0, 3), (2, 3)];

/// Scalefactor differences, each seven more than what it stands for. The largest announces a
/// scalefactor outright.
pub const DSCF_VLC: [(i32, u8); 16] = [
    (9, 3),
    (6, 3),
    (8, 3),
    (11, 4),
    (7, 4),
    (15, 4),
    (4, 4),
    (10, 4),
    (1, 5),
    (13, 5),
    (2, 5),
    (3, 5),
    (12, 5),
    (5, 3),
    (0, 6),
    (14, 6),
];

/// Band type differences, each five more than what it stands for. The largest announces a
/// band type outright.
pub const HDR_VLC: [(i32, u8); 10] = [
    (5, 1),
    (6, 3),
    (4, 2),
    (3, 4),
    (2, 5),
    (7, 6),
    (1, 7),
    (0, 8),
    (9, 9),
    (8, 9),
];

} // verus!
