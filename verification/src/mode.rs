//! File modes.
use vstd::prelude::*;
use crate::text::same_text;

verus! {

/// What kind of file an entry stands for.
#[derive(Debug, Clone, Copy, PartialEq, Eq, Structural)]
pub enum FileMode {
    Regular,
    Executable,
    Directory,
    Symlink,
}

impl FileMode {
    /// The octal digits of a mode.
    pub open spec fn octal(self) -> Seq<char> {
        match self {
            FileMode::Regular => "100644"@,
            FileMode::Executable => "100755"@,
            FileMode::Directory => "040000"@,
            FileMode::Symlink => "120000"@,
        }
    }

    /// The mode that octal digits stand for; any other text is a regular file.
    pub open spec fn of_octal(s: Seq<char>) -> FileMode {
        if s == "100755"@ {
            FileMode::Executable
        } else if s == "040000"@ || s == "40000"@ {
            FileMode::Directory
        } else if s == "120000"@ {
            FileMode::Symlink
        } else {
            FileMode::Regular
        }
    }

    /// The number of a mode in the index.
    pub open spec fn tag(self) -> u8 {
        match self {
            FileMode::Regular => 0,
            FileMode::Executable => 1,
            FileMode::Directory => 2,
            FileMode::Symlink => 3,
        }
    }

    /// The mode of a number in the index; any other number is a regular file.
    pub open spec fn of_tag(tag: u8) -> FileMode {
        if tag == 1 {
            FileMode::Executable
        } else if tag == 2 {
            FileMode::Directory
        } else if tag == 3 {
            FileMode::Symlink
        } else {
            FileMode::Regular
        }
    }

    /// Octal mode string, as trees hold it.
    pub fn to_octal_str(self) -> (r: &'static str)
        ensures
            r@ == self.octal(),
    {
        match self {
            FileMode::Regular => "100644",
            FileMode::Executable => "100755",
            FileMode::Directory => "040000",
            FileMode::Symlink => "120000",
        }
    }

    /// The mode of an octal mode string.
    pub fn from_octal_str(s: &str) -> (r: Self)
        ensures
            r == FileMode::of_octal(s@),
    {
        if same_text(s, "100755") {
            FileMode::Executable
        } else if same_text(s, "040000") || same_text(s, "40000") {
            FileMode::Directory
        } else if same_text(s, "120000") {
            FileMode::Symlink
        } else {
            FileMode::Regular
        }
    }

    /// Numeric tag, as the binary index holds it.
    pub fn to_tag(self) -> (r: u8)
        ensures
            r == self.tag(),
    {
        match self {
            FileMode::Regular => 0,
            FileMode::Executable => 1,
            FileMode::Directory => 2,
            FileMode::Symlink => 3,
        }
    }

    /// The mode of a numeric tag.
    pub fn from_tag(tag: u8) -> (r: Self)
        ensures
            r == FileMode::of_tag(tag),
    {
        if tag == 1 {
            FileMode::Executable
        } else if tag == 2 {
            FileMode::Directory
        } else if tag == 3 {
            FileMode::Symlink
        } else {
            FileMode::Regular
        }
    }

    /// The octal digits of a mode are six ASCII digits.
    pub proof fn lemma_octal_digits(self)
        ensures
            self.octal().len() == 6,
            forall|i: int| 0 <= i < 6 ==> '0' <= #[trigger] self.octal()[i] <= '9',
    {
        reveal_strlit("100644");
        reveal_strlit("100755");
        reveal_strlit("040000");
        reveal_strlit("120000");
    }

    /// A mode is read back from its octal digits.
    pub proof fn octal_round_trip(self)
        ensures
            FileMode::of_octal(self.octal()) == self,
    {
        reveal_strlit("100644");
        reveal_strlit("100755");
        reveal_strlit("040000");
        reveal_strlit("40000");
        reveal_strlit("120000");
        let s = self.octal();
        assert(s == "100644"@ ==> s[3] == '6');
        assert(s == "100755"@ ==> s[3] == '7');
        assert("100644"@[3] == '6');
        assert("100755"@[3] == '7');
        assert("040000"@[0] == '0');
        assert("120000"@[1] == '2');
        assert("100644"@[0] == '1' && "100644"@[1] == '0');
    }

    /// A mode is read back from its tag.
    pub proof fn tag_round_trip(self)
        ensures
            FileMode::of_tag(self.tag()) == self,
    {
    }
}

/// A mode is read from its six octal digits, a directory from its five as well; any
/// other text, and any other tag, stands for a regular file.
pub proof fn other_modes_are_regular(s: Seq<char>, tag: u8)
    ensures
        FileMode::of_octal(s) == FileMode::Executable <==> s == "100755"@,
        FileMode::of_octal(s) == FileMode::Directory <==> s == "040000"@ || s == "40000"@,
        FileMode::of_octal(s) == FileMode::Symlink <==> s == "120000"@,
        FileMode::of_tag(tag) == FileMode::Executable <==> tag == 1,
        FileMode::of_tag(tag) == FileMode::Directory <==> tag == 2,
        FileMode::of_tag(tag) == FileMode::Symlink <==> tag == 3,
{
    reveal_strlit("100755");
    reveal_strlit("040000");
    reveal_strlit("40000");
    reveal_strlit("120000");
    assert("100755"@[0] == '1' && "100755"@[1] == '0');
    assert("040000"@[0] == '0');
    assert("40000"@[0] == '4');
    assert("120000"@[0] == '1' && "120000"@[1] == '2');
}

} // verus!
