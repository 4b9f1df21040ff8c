//! Values of sysfs attribute files, and the errors of writing them.
//!
//! An attribute file holds one value followed by a line break; its value is
//! the file's text without the white space around it.

use vstd::prelude::*;

use crate::scan::{ascii_bytes, chars_of, parse_int, parse_uint, trim, trim_range};
use crate::text::{parse_i64_spec, parse_unsigned_spec};

verus! {

/// Why writing an attribute failed.
#[derive(Clone, Debug, PartialEq, Eq)]
pub enum Error {
    /// No permission to write (the udev rule is not installed).
    Permission(String),
    NotFound(String),
    /// The driver refused the value (EINVAL, EBUSY, EOPNOTSUPP, ENXIO).
    Rejected(String, String),
    Io(String, String),
}

impl Error {
    pub open spec fn message_text(&self) -> Seq<char> {
        match self {
            Error::Permission(p) => "нет прав на запись "@ + p@ + " — установите udev-правило"@,
            Error::NotFound(p) => p@ + " не найден"@,
            Error::Rejected(p, e) => "драйвер отклонил значение ("@ + p@ + "): "@ + e@,
            Error::Io(p, e) => p@ + ": "@ + e@,
        }
    }

    /// The error as the user reads it.
    pub fn message(&self) -> (s: String)
        ensures
            s@ == self.message_text(),
    {
        let mut s = String::new();
        match self {
            Error::Permission(p) => {
                s.append("нет прав на запись ");
                s.append(p.as_str());
                s.append(" — установите udev-правило");
            },
            Error::NotFound(p) => {
                s.append(p.as_str());
                s.append(" не найден");
            },
            Error::Rejected(p, e) => {
                s.append("драйвер отклонил значение (");
                s.append(p.as_str());
                s.append("): ");
                s.append(e.as_str());
            },
            Error::Io(p, e) => {
                s.append(p.as_str());
                s.append(": ");
                s.append(e.as_str());
            },
        }
        s
    }
}

pub type Result<T> = core::result::Result<T, Error>;

/// The value in the text of an attribute file.
pub fn text(raw: &str) -> (r: String)
    ensures
        r@ == trim(raw@),
{
    let cs = chars_of(raw);
    let (a, b) = trim_range(&cs, 0, cs.len());
    assert(cs@.subrange(0, cs@.len() as int) =~= cs@);
    raw.substring_char(a, b).to_owned()
}

/// An attribute's value read as an `i64`.
pub open spec fn num_spec(raw: Seq<char>) -> Option<int> {
    parse_i64_spec(ascii_bytes(trim(raw)))
}

/// An attribute's value read as an unsigned number of at most `max`.
pub open spec fn unsigned_spec(raw: Seq<char>, max: int) -> Option<int> {
    parse_unsigned_spec(ascii_bytes(trim(raw)), 10, max)
}

/// An attribute's value as an `i64`, if it is one.
pub fn read_num(raw: &str) -> (r: Option<i64>)
    ensures
        r is Some <==> num_spec(raw@) is Some,
        r is Some ==> r->0 == num_spec(raw@)->0,
{
    let cs = chars_of(raw);
    assert(cs@.subrange(0, cs@.len() as int) =~= cs@);
    let (a, b) = trim_range(&cs, 0, cs.len());
    parse_int(&cs, a, b)
}

/// An attribute's value as a `u32`, if it is one.
pub fn read_u32(raw: &str) -> (r: Option<u32>)
    ensures
        r is Some <==> unsigned_spec(raw@, u32::MAX as int) is Some,
        r is Some ==> r->0 == unsigned_spec(raw@, u32::MAX as int)->0,
{
    let cs = chars_of(raw);
    assert(cs@.subrange(0, cs@.len() as int) =~= cs@);
    let (a, b) = trim_range(&cs, 0, cs.len());
    match parse_uint(&cs, a, b, 0xFFFF_FFFF) {
        Some(v) => Some(v as u32),
        None => None,
    }
}

/// An attribute's value as a `u8`, if it is one.
pub fn read_u8(raw: &str) -> (r: Option<u8>)
    ensures
        r is Some <==> unsigned_spec(raw@, 0xFF) is Some,
        r is Some ==> r->0 == unsigned_spec(raw@, 0xFF)->0,
{
    let cs = chars_of(raw);
    assert(cs@.subrange(0, cs@.len() as int) =~= cs@);
    let (a, b) = trim_range(&cs, 0, cs.len());
    match parse_uint(&cs, a, b, 0xFF) {
        Some(v) => Some(v as u8),
        None => None,
    }
}

/// A switch attribute: a `u8`, on when it is not zero.
pub open spec fn bool_spec(raw: Seq<char>) -> Option<bool> {
    match unsigned_spec(raw, 0xFF) {
        Some(v) => Some(v != 0),
        None => None,
    }
}

/// A switch attribute's state, if its value is a `u8`.
pub fn read_bool(raw: &str) -> (r: Option<bool>)
    ensures
        r == bool_spec(raw@),
{
    match read_u8(raw) {
        Some(v) => Some(v != 0),
        None => None,
    }
}

/// `s` without its leading `/` characters.
pub open spec fn strip_slashes(s: Seq<char>) -> Seq<char>
    decreases s.len(),
{
    if s.len() > 0 && s[0] == '/' {
        strip_slashes(s.drop_first())
    } else {
        s
    }
}

/// `root` joined with the relative path `rel`: a `/` between them unless
/// `root` is empty or already ends with one.
pub open spec fn join_spec(root: Seq<char>, rel: Seq<char>) -> Seq<char> {
    if root.len() > 0 && root.last() != '/' {
        root + seq!['/'] + rel
    } else {
        root + rel
    }
}

/// Where `/sys/...` lives: `path` itself, or below `root` when the tree is
/// redirected (the simulated laptop).
pub open spec fn sys_spec(root: Option<Seq<char>>, path: Seq<char>) -> Seq<char> {
    match root {
        None => path,
        Some(r) => join_spec(r, strip_slashes(path)),
    }
}

/// The real path of the sysfs path `path`.
pub fn sys(root: Option<&str>, path: &str) -> (r: String)
    ensures
        r@ == sys_spec(
            match root {
                Some(x) => Some(x@),
                None => None,
            },
            path@,
        ),
{
    match root {
        None => path.to_owned(),
        Some(x) => {
            let cs = chars_of(path);
            assert(cs@.subrange(0, cs@.len() as int) =~= cs@);
            let mut k: usize = 0;
            while k < cs.len() && cs[k] == '/'
                invariant
                    k <= cs@.len(),
                    strip_slashes(cs@) == strip_slashes(cs@.subrange(k as int, cs@.len() as int)),
                decreases cs@.len() - k,
            {
                assert(cs@.subrange(k as int, cs@.len() as int).drop_first() =~= cs@.subrange(
                    k + 1,
                    cs@.len() as int,
                ));
                k = k + 1;
            }
            assert(cs@.subrange(0, cs@.len() as int) =~= cs@);
            let rel = path.substring_char(k, cs.len());
            let rs = chars_of(x);
            let mut out = x.to_owned();
            if rs.len() > 0 && rs[rs.len() - 1] != '/' {
                out.append("/");
                proof {
                    reveal_strlit("/");
                }
            }
            out.append(rel);
            out
        },
    }
}


/// What the user is told after a write: `ok` on success; a value the driver
/// refused outside the custom mode is one it takes only in the custom mode;
/// any other error as it reads. The flag tells success from failure.
pub fn write_notice(r: &Result<()>, mode: Option<crate::hw::power::PowerMode>, ok: String) -> (n: (
    bool,
    String,
))
    ensures
        n.0 == r is Ok,
        r is Ok ==> n.1@ == ok@,
        r matches Err(Error::Rejected(_, _)) && mode != Some(crate::hw::power::PowerMode::Custom)
            ==> n.1@ == "Драйвер принимает это значение только в режиме «Свой»"@,
        match r {
            Err(e) => !(e is Rejected && mode != Some(crate::hw::power::PowerMode::Custom)) ==> n.1@
                == e.message_text(),
            Ok(_) => true,
        },
{
    match r {
        Ok(()) => (true, ok),
        Err(e) => {
            let custom = match mode {
                Some(crate::hw::power::PowerMode::Custom) => true,
                _ => false,
            };
            match e {
                Error::Rejected(_, _) if !custom => (
                    false,
                    "Драйвер принимает это значение только в режиме «Свой»".to_owned(),
                ),
                _ => (false, e.message()),
            }
        },
    }
}

} // verus!
