use nfl2mac::args::{file_type_of, split_name, FileType};

#[test]
fn split_files_are_recognised_by_name() {
    assert_eq!(file_type_of("part-split.nfl"), FileType::SplitNFL);
    assert_eq!(file_type_of("-split.nfl"), FileType::SplitNFL);
    assert_eq!(file_type_of("part.nfl"), FileType::RawNFL);
    assert_eq!(file_type_of("split.nfl"), FileType::RawNFL);
    assert_eq!(file_type_of(""), FileType::RawNFL);
}

#[test]
fn split_name_goes_before_the_extension() {
    assert_eq!(split_name("part.nfl"), Some(String::from("part-split.nfl")));
    assert_eq!(split_name(".nfl"), Some(String::from("-split.nfl")));
    assert_eq!(split_name("abc"), None);
}
