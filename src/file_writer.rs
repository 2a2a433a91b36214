//! Where the list files stand.
use vstd::prelude::*;

verus! {

/// Names the directory that holds one file per list.
pub struct FileWriter {
    pub base_directory: String,
}

impl FileWriter {
    pub fn new(base_directory: &str) -> (r: FileWriter)
        ensures
            r.base_directory@ == base_directory@,
    {
        FileWriter { base_directory: String::from_str(base_directory) }
    }

    /// The path of the file `file_name` in the base directory.
    pub fn get_file_path(&self, file_name: &str) -> (r: String)
        ensures
            r@ == self.base_directory@ + seq!['/'] + file_name@,
    {
        let mut r = self.base_directory.clone();
        r.append("/");
        r.append(file_name);
        proof {
            reveal_strlit("/");
        }
        r
    }
}

} // verus!
