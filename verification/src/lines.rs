//! Assembly of text lines from chunks of bytes read off a connection.

use vstd::prelude::*;

use crate::text::{decode_lossy, find_char, find_char_in, string_from_chars, sub_vec, utf8_lossy};

verus! {

/// Collects the text of chunks into lines. Each chunk is decoded on its own,
/// as `String::from_utf8_lossy` decodes it, and only its first `'\n'` ends a
/// line; further newlines in the same chunk stay in the collected text.
pub struct LineAssembler {
    pub current_line: String,
}

impl LineAssembler {
    /// An assembler with no text collected.
    pub fn new() -> (a: Self)
        ensures
            a.current_line@ == Seq::<char>::empty(),
    {
        LineAssembler { current_line: String::new() }
    }

    /// Adds the text of one chunk. If the chunk holds a `'\n'`, the line it
    /// ends is returned and the text after it starts the next line.
    pub fn push_chunk(&mut self, chunk: &[u8]) -> (line: Option<String>)
        ensures
            match find_char(utf8_lossy(chunk@), '\n') {
                Some(i) => line matches Some(l) && l@ == old(self).current_line@ + utf8_lossy(
                    chunk@,
                ).take(i) && final(self).current_line@ == utf8_lossy(chunk@).skip(i + 1),
                None => line is None && final(self).current_line@ == old(self).current_line@
                    + utf8_lossy(chunk@),
            },
    {
        let text = decode_lossy(chunk);
        proof {
            crate::text::lemma_find_char_bounds(text@, '\n');
        }
        match find_char_in(&text, '\n') {
            Some(i) => {
                assert(i < text.len());
                let before = sub_vec(&text, 0, i);
                let after = sub_vec(&text, i + 1, text.len());
                let before_text = string_from_chars(before.as_slice());
                self.current_line.append(before_text.as_str());
                let line = self.current_line.clone();
                self.current_line = string_from_chars(after.as_slice());
                assert(before@ =~= text@.take(i as int));
                assert(after@ =~= text@.skip(i + 1));
                Some(line)
            },
            None => {
                let all = string_from_chars(text.as_slice());
                self.current_line.append(all.as_str());
                None
            },
        }
    }
}

} // verus!
