//! The tags by which the boot loader tells the kernel about the machine.
use vstd::prelude::*;

verus! {

/// The tag word of the last tag of a list.
pub const TAG_NONE: u32 = 0x0000_0000;

/// The tag word of the core tag, the first of a list.
pub const TAG_CORE: u32 = 0x5441_0001;

/// The tag word of a tag that describes a range of memory.
pub const TAG_MEM: u32 = 0x5441_0002;

/// The tag word of the tag that holds the kernel's command line.
pub const TAG_CMDLINE: u32 = 0x5441_0009;

/// What the core tag holds.
#[derive(Clone, Copy, Debug, PartialEq, Eq, Structural)]
pub struct Core {
    pub flags: u32,
    pub page_size: u32,
    pub root_dev: u32,
}

/// What a memory tag holds: the size of a range of memory and where it
/// starts.
#[derive(Clone, Copy, Debug, PartialEq, Eq, Structural)]
pub struct Mem {
    pub size: u32,
    pub start: u32,
}

/// A tag.
#[derive(Clone, Copy, Debug, PartialEq)]
pub enum Atag {
    Core(Core),
    Mem(Mem),
    Cmd(&'static str),
    Unknown(u32),
    /// The empty tag that ends a list.
    End,
}

impl Atag {
    /// What the tag holds if it is a core tag.
    pub fn as_core(self) -> (core: Option<Core>)
        ensures
            core == match self {
                Atag::Core(c) => Some(c),
                _ => None,
            },
    {
        match self {
            Atag::Core(core) => Some(core),
            _ => None,
        }
    }

    /// What the tag holds if it is a memory tag.
    pub fn mem(self) -> (mem: Option<Mem>)
        ensures
            mem == match self {
                Atag::Mem(m) => Some(m),
                _ => None,
            },
    {
        match self {
            Atag::Mem(mem) => Some(mem),
            _ => None,
        }
    }

    /// The command line if the tag holds it.
    pub fn cmd(self) -> (cmd: Option<&'static str>)
        ensures
            cmd == match self {
                Atag::Cmd(c) => Some(c),
                _ => None,
            },
    {
        match self {
            Atag::Cmd(cmd) => Some(cmd),
            _ => None,
        }
    }

    /// The number of bytes of `bytes` before the first zero byte: the length
    /// of the string that it ends. Without a zero byte, all of them.
    pub fn get_str_len(bytes: &[u8]) -> (len: usize)
        ensures
            len <= bytes@.len(),
            forall|i: int| 0 <= i < len ==> bytes@[i] != 0,
            len < bytes@.len() ==> bytes@[len as int] == 0,
    {
        let mut len: usize = 0;
        while len < bytes.len()
            invariant
                len <= bytes@.len(),
                forall|i: int| 0 <= i < len ==> bytes@[i] != 0,
            decreases bytes@.len() - len,
        {
            if bytes[len] == 0 {
                return len;
            }
            len = len + 1;
        }
        len
    }
}

/// What a tag word announces.
#[derive(Clone, Copy, Debug, PartialEq, Eq, Structural)]
pub enum Kind {
    Core,
    Mem,
    Cmd,
    Unknown(u32),
    /// The empty tag that ends a list.
    End,
}

impl Kind {
    /// What the tag word `tag` announces. A word that is none of the four
    /// known ones is kept.
    pub fn of(tag: u32) -> (kind: Kind)
        ensures
            kind == if tag == TAG_CORE {
                Kind::Core
            } else if tag == TAG_MEM {
                Kind::Mem
            } else if tag == TAG_CMDLINE {
                Kind::Cmd
            } else if tag == TAG_NONE {
                Kind::End
            } else {
                Kind::Unknown(tag)
            },
    {
        if tag == TAG_CORE {
            Kind::Core
        } else if tag == TAG_MEM {
            Kind::Mem
        } else if tag == TAG_CMDLINE {
            Kind::Cmd
        } else if tag == TAG_NONE {
            Kind::End
        } else {
            Kind::Unknown(tag)
        }
    }
}

} // verus!
