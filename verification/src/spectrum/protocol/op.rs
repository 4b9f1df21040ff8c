//! Operation codes (the second byte of a packet).

use vstd::prelude::*;

verus! {

pub const KEY_COUNT: u8 = 0xC4;
pub const KEY_PAGE: u8 = 0xC5;
pub const SET_PROFILE: u8 = 0xC8;
pub const PROFILE_DEFAULT: u8 = 0xC9;
pub const GET_PROFILE: u8 = 0xCA;
pub const SET_EFFECTS: u8 = 0xCB;
pub const GET_EFFECTS: u8 = 0xCC;
pub const GET_BRIGHTNESS: u8 = 0xCD;
pub const SET_BRIGHTNESS: u8 = 0xCE;
pub const COMPATIBILITY: u8 = 0xD1;
pub const GET_LOGO: u8 = 0xA5;
pub const SET_LOGO: u8 = 0xA6;

} // verus!
