//! What the consumer of a scan puts on the screen.
//!
//! The consumer keeps the snapshot that came last and draws it as a frame: a
//! headline and one line for each file. When the scan is over it leaves the
//! frame standing and moves below it, or says that nothing was found. What
//! is written here is text; to clear and to move on a terminal is left to
//! the caller.
use crate::bytes::{decimal, humanize, push_decimal};
use crate::files::file_line;
use crate::rank::{ranks, Rank};
use crate::FileSize;
use vstd::prelude::*;

verus! {

/// The lines of a frame below its headline: one for each file, in order.
pub open spec fn lines(files: Seq<Rank>) -> Seq<char>
    decreases files.len(),
{
    if files.len() == 0 {
        Seq::empty()
    } else {
        lines(files.drop_last()) + file_line(files.last()) + seq!['\n']
    }
}

/// The frame that shows `files`: a headline with their number, then their
/// lines.
pub open spec fn frame(files: Seq<Rank>) -> Seq<char> {
    "*** Top "@ + decimal(files.len()) + " largest files ***\n"@ + lines(files)
}

/// The number of rows to move down from the top of a frame of `count` files
/// to get below it: one for the headline and one for each file, as far as
/// sixteen bits hold it.
pub open spec fn rows_below(count: nat) -> u16 {
    ((count + 1) % 0x1_0000) as u16
}

/// What is left to do on the screen when a scan is over.
#[derive(Debug, PartialEq, Eq)]
pub enum Closing {
    /// Write this: nothing was drawn.
    Say(String),
    /// Move the cursor down by this many rows, below the frame.
    MoveDown(u16),
}

/// The state of the screen: the files of the snapshot that came last.
pub struct App {
    files: Vec<(FileSize, String)>,
}

impl View for App {
    type V = Seq<Rank>;

    closed spec fn view(&self) -> Seq<Rank> {
        ranks(self.files@)
    }
}

impl App {
    /// A screen that shows no file yet.
    pub fn new() -> (app: App)
        ensures
            app@ == Seq::<Rank>::empty(),
    {
        let app = App { files: Vec::new() };
        assert(app@ =~= Seq::<Rank>::empty());
        app
    }

    /// Takes a snapshot in place of the one held.
    pub fn update(&mut self, files: Vec<(FileSize, String)>)
        ensures
            final(self)@ == ranks(files@),
    {
        self.files = files;
    }

    /// The frame to draw.
    pub fn render(&self) -> (text: String)
        ensures
            text@ == frame(self@),
    {
        let mut text = String::new();
        text.append("*** Top ");
        push_decimal(&mut text, self.files.len() as u64);
        text.append(" largest files ***\n");
        let ghost headline = text@;
        assert(lines(self@.take(0)) =~= Seq::<char>::empty());
        let mut shown: usize = 0;
        while shown < self.files.len()
            invariant
                shown <= self.files.len(),
                text@ == headline + lines(self@.take(shown as int)),
            decreases self.files.len() - shown,
        {
            let file = &self.files[shown];
            let size = humanize(file.0.bytes());
            proof {
                reveal_strlit(" ");
                reveal_strlit("\n");
                let next = self@.take(shown + 1);
                assert(next.drop_last() =~= self@.take(shown as int));
                assert(next.last() == file@);
            }
            text.append(size.as_str());
            text.append(" ");
            text.append(file.1.as_str());
            text.append("\n");
            shown += 1;
            assert(text@ =~= headline + lines(self@.take(shown as int)));
        }
        assert(self@.take(shown as int) =~= self@);
        assert(text@ =~= frame(self@));
        text
    }

    /// What is left to do when the scan is over: to say that no files were
    /// found where none is shown, else to move below the frame.
    pub fn close(&self) -> (closing: Closing)
        ensures
            match closing {
                Closing::Say(text) => self@.len() == 0 && text@ == "No files found.\n"@,
                Closing::MoveDown(rows) => self@.len() > 0 && rows == rows_below(self@.len()),
            },
    {
        if self.files.len() == 0 {
            Closing::Say("No files found.\n".to_owned())
        } else {
            let low: usize = self.files.len() % 0x1_0000;
            let rows: usize = if low == 0xffff {
                0
            } else {
                low + 1
            };
            Closing::MoveDown(rows as u16)
        }
    }
}

} // verus!
