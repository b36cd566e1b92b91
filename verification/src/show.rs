//! Objects as they are shown.
use vstd::prelude::*;
use crate::mode::FileMode;
use crate::object::{BrassObject, CommitView, ObjectView, TreeEntryView};
use crate::utf8::{lossy_text, read_lossy};

verus! {

/// The name of a mode.
pub open spec fn mode_name(mode: FileMode) -> Seq<char> {
    match mode {
        FileMode::Regular => "Regular"@,
        FileMode::Executable => "Executable"@,
        FileMode::Directory => "Directory"@,
        FileMode::Symlink => "Symlink"@,
    }
}

/// The entries of a tree, one line for each.
pub open spec fn shown_entries(entries: Seq<TreeEntryView>) -> Seq<char>
    decreases entries.len(),
{
    if entries.len() == 0 {
        Seq::empty()
    } else {
        let e = entries.last();
        shown_entries(entries.drop_last()) + mode_name(e.mode) + " "@ + e.hash + "\t"@ + e.name
            + "\n"@
    }
}

/// An object as it is shown.
pub open spec fn shown(o: ObjectView) -> Seq<char> {
    match o {
        ObjectView::Blob(data) => lossy_text(data) + "\n"@,
        ObjectView::Tree(entries) => shown_entries(entries),
        ObjectView::Commit(c) => "Tree: "@ + c.tree_hash + "\nAuthor: "@ + c.author.name + " <"@
            + c.author.email + ">\n\n"@ + c.message + "\n"@,
    }
}

fn name_of(mode: FileMode) -> (r: &'static str)
    ensures
        r@ == mode_name(mode),
{
    match mode {
        FileMode::Regular => "Regular",
        FileMode::Executable => "Executable",
        FileMode::Directory => "Directory",
        FileMode::Symlink => "Symlink",
    }
}

impl BrassObject {
    /// The object as it is shown.
    pub fn show(&self) -> (r: String)
        ensures
            r@ == shown(self@),
    {
        match self {
            BrassObject::Blob(b) => {
                let mut out = read_lossy(b.data.as_slice());
                out.append("\n");
                out
            },
            BrassObject::Tree(t) => {
                let mut out = String::new();
                let mut i: usize = 0;
                assert(t@.take(0) =~= Seq::empty());
                while i < t.entries.len()
                    invariant
                        i <= t.entries@.len(),
                        out@ == shown_entries(t@.take(i as int)),
                    decreases t.entries@.len() - i,
                {
                    let e = &t.entries[i];
                    let ghost before = out@;
                    out.append(name_of(e.mode));
                    out.append(" ");
                    out.append(e.hash.as_str());
                    out.append("\t");
                    out.append(e.name.as_str());
                    out.append("\n");
                    assert(t@.take(i + 1).drop_last() =~= t@.take(i as int));
                    assert(t@.take(i + 1).last() == e@);
                    i = i + 1;
                }
                assert(t@.take(i as int) =~= t@);
                out
            },
            BrassObject::Commit(c) => {
                let mut out = "Tree: ".to_owned();
                out.append(c.tree_hash.as_str());
                out.append("\nAuthor: ");
                out.append(c.author.name.as_str());
                out.append(" <");
                out.append(c.author.email.as_str());
                out.append(">\n\n");
                out.append(c.message.as_str());
                out.append("\n");
                out
            },
        }
    }
}

// ---------------------------------------------------------------------------
// Laws

/// The line that shows an entry of a tree.
pub open spec fn is_entry_row(e: TreeEntryView, row: Seq<char>) -> bool {
    row == (match e.mode {
        FileMode::Regular => "Regular "@,
        FileMode::Executable => "Executable "@,
        FileMode::Directory => "Directory "@,
        FileMode::Symlink => "Symlink "@,
    }) + e.hash + seq!['\t'] + e.name + seq!['\n']
}

/// A tree is shown with a line for each of its entries, in order: the kind of the
/// entry, its hash and its name.
pub proof fn shown_tree_tells_every_entry(entries: Seq<TreeEntryView>) -> (rows: Seq<Seq<char>>)
    ensures
        rows.len() == entries.len(),
        forall|i: int|
            0 <= i < rows.len() ==> is_entry_row(entries[i], #[trigger] rows[i]),
        shown(ObjectView::Tree(entries)) == rows.flatten(),
    decreases entries.len(),
{
    if entries.len() == 0 {
        Seq::empty()
    } else {
        let less = entries.drop_last();
        let before = shown_tree_tells_every_entry(less);
        let e = entries.last();
        let row = mode_name(e.mode) + " "@ + e.hash + "\t"@ + e.name + "\n"@;
        reveal_strlit(" ");
        reveal_strlit("\t");
        reveal_strlit("\n");
        reveal_strlit("Regular");
        reveal_strlit("Regular ");
        reveal_strlit("Executable");
        reveal_strlit("Executable ");
        reveal_strlit("Directory");
        reveal_strlit("Directory ");
        reveal_strlit("Symlink");
        reveal_strlit("Symlink ");
        assert("Regular"@ + " "@ =~= "Regular "@);
        assert("Executable"@ + " "@ =~= "Executable "@);
        assert("Directory"@ + " "@ =~= "Directory "@);
        assert("Symlink"@ + " "@ =~= "Symlink "@);
        assert("\t"@ =~= seq!['\t']);
        assert("\n"@ =~= seq!['\n']);
        before.lemma_flatten_push(row);
        assert(shown_entries(entries) =~= shown_entries(less) + row);
        let rows = before.push(row);
        assert forall|i: int| 0 <= i < rows.len() implies is_entry_row(
            entries[i],
            #[trigger] rows[i],
        ) by {
            if i < before.len() {
                assert(rows[i] == before[i]);
            }
        }
        rows
    }
}

/// A blob is shown as its text and a line end; a commit by its tree, its author
/// and its message.
pub proof fn shown_object_tells_its_content(data: Seq<u8>, c: CommitView)
    ensures
        shown(ObjectView::Blob(data)) == lossy_text(data).push('\n'),
        shown(ObjectView::Commit(c)) == "Tree: "@ + c.tree_hash + "\nAuthor: "@ + c.author.name
            + " <"@ + c.author.email + ">\n\n"@ + c.message + seq!['\n'],
{
    reveal_strlit("\n");
    assert("\n"@ =~= seq!['\n']);
    assert(lossy_text(data) + "\n"@ =~= lossy_text(data).push('\n'));
}

} // verus!
