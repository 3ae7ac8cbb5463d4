//! The user's project settings, as plain values.
use vstd::prelude::*;
use crate::text::string_of;

verus! {

/// Settings of one project: where its reference files are and which
/// extensions are searched.
#[derive(Clone, Debug)]
pub struct UserProjectConfig {
    pub project_name: String,
    pub reference_directory: String,
    pub file_extensions: Vec<String>,
    pub ollama_model: String,
    pub setup_complete: bool,
}

fn text(cs: Vec<char>) -> (r: String)
    ensures
        r@ == cs@,
{
    string_of(&cs)
}

impl Default for UserProjectConfig {
    fn default() -> (r: Self)
        ensures
            r.project_name@ == seq!['M', 'y', ' ', 'P', 'r', 'o', 'j', 'e', 'c', 't'],
            r.reference_directory@ == seq!['.'],
            r.file_extensions@.len() == 4,
            r.file_extensions@[0]@ == seq!['r', 's'],
            r.file_extensions@[1]@ == seq!['t', 'o', 'm', 'l'],
            r.file_extensions@[2]@ == seq!['m', 'd'],
            r.file_extensions@[3]@ == seq!['t', 'x', 't'],
            r.ollama_model@ == seq![
                'q', 'w', 'e', 'n', '2', '.', '5', '-', 'c', 'o', 'd', 'e', 'r', ':', '7', 'b'
            ],
            !r.setup_complete,
    {
        let mut exts: Vec<String> = Vec::new();
        exts.push(text(vec!['r', 's']));
        exts.push(text(vec!['t', 'o', 'm', 'l']));
        exts.push(text(vec!['m', 'd']));
        exts.push(text(vec!['t', 'x', 't']));
        UserProjectConfig {
            project_name: text(vec!['M', 'y', ' ', 'P', 'r', 'o', 'j', 'e', 'c', 't']),
            reference_directory: text(vec!['.']),
            file_extensions: exts,
            ollama_model: text(
                vec!['q', 'w', 'e', 'n', '2', '.', '5', '-', 'c', 'o', 'd', 'e', 'r', ':', '7', 'b'],
            ),
            setup_complete: false,
        }
    }
}

} // verus!
