use gideon_core::library::DirItem;
use gideon_core::profile::{
    conversion_target, convert_default, discover, is_valid_name, library_dir, ConvertStep,
    DEFAULT_PROFILE,
};
use gideon_core::Error;

/// An item of a directory; what has an extension, or says so, is a file.
fn item(name: &str) -> DirItem {
    DirItem {
        name: name.to_string(),
        is_dir: !(name.ends_with(".cbz") || name.ends_with(".png") || name == "@notadir"),
    }
}

/// A library root with the items of the directories in it.
struct Root {
    items: Vec<String>,
    target: Option<Vec<String>>,
    /// The rename that fails, counted from the first.
    fail_at: Option<usize>,
    renames: usize,
    /// Whether nothing can be put back.
    stuck: bool,
}

impl Root {
    fn new(items: &[&str]) -> Self {
        Root {
            items: items.iter().map(|s| s.to_string()).collect(),
            target: None,
            fail_at: None,
            renames: 0,
            stuck: false,
        }
    }

    fn rename(from: &mut Vec<String>, to: &mut Vec<String>, path: &str) {
        let name = path.rsplit('/').next().unwrap();
        let at = from.iter().position(|n| n == name).unwrap();
        to.push(from.remove(at));
    }

    /// Converts the root, and says whether that worked.
    fn convert(&mut self, name: &str) -> Result<String, Error> {
        let target = conversion_target("/r", name)?;
        let taken = self.items.iter().any(|i| format!("/r/{i}") == target);
        let listing = self.items.iter().map(|name| item(name)).collect();
        let mut conversion = convert_default("/r", name, taken, &listing)?;
        loop {
            let ok = match conversion.step() {
                ConvertStep::CreateTarget(dir) => {
                    assert_eq!(dir, target);
                    self.target = Some(Vec::new());
                    true
                }
                ConvertStep::Move { from, to } => {
                    assert_eq!(to.strip_prefix(&target), from.strip_prefix("/r"));
                    let failing = self.fail_at == Some(self.renames);
                    self.renames += 1;
                    if !failing {
                        Root::rename(&mut self.items, self.target.as_mut().unwrap(), &from);
                    }
                    !failing
                }
                ConvertStep::PutBack { from, to } => {
                    assert_eq!(from.strip_prefix(&target), to.strip_prefix("/r"));
                    if !self.stuck {
                        Root::rename(self.target.as_mut().unwrap(), &mut self.items, &from);
                    }
                    !self.stuck
                }
                ConvertStep::RemoveTarget(dir) => {
                    assert_eq!(dir, target);
                    let empty = self.target == Some(Vec::new());
                    if empty {
                        self.target = None;
                    }
                    empty
                }
                ConvertStep::Converted => return Ok(conversion.target().to_string()),
                ConvertStep::GivenUp => {
                    return Err(Error::Io(std::io::Error::other("rename failed")))
                }
            };
            conversion.done(ok);
        }
    }
}

#[test]
fn library_dir_is_the_root_only_for_default() {
    let root = "/data/Manga";
    assert_eq!(library_dir(root, "default"), root);
    assert_eq!(library_dir(root, "alex"), "/data/Manga/@alex");
    assert_eq!(DEFAULT_PROFILE, "default");
}

#[test]
fn names_that_would_escape_or_shadow_are_rejected() {
    assert!(is_valid_name("alex"));
    assert!(is_valid_name(" Bo "));
    assert!(!is_valid_name(""));
    assert!(!is_valid_name("   "));
    assert!(!is_valid_name("default"));
    assert!(!is_valid_name("@alex"));
    assert!(!is_valid_name(".gideon"));
    assert!(!is_valid_name("a/b"));
    assert!(!is_valid_name("a\\b"));
}

#[test]
fn conversion_moves_books_and_bookkeeping_but_not_other_profiles() {
    let mut root = Root::new(&["Series", "loose.cbz", ".gideon", "@alex"]);
    assert_eq!(root.convert(" me ").unwrap(), "/r/@me");
    assert_eq!(root.target.unwrap(), vec!["Series", "loose.cbz", ".gideon"]);
    // The root keeps only profile directories now.
    assert_eq!(root.items, vec!["@alex"]);
}

#[test]
fn discovery_finds_every_profile_that_has_a_library() {
    // Not profiles: a series directory, a loose book, the bookkeeping
    // directory, and a stray file that merely starts with @.
    let items: Vec<DirItem> = [
        ("@bo", true),
        ("@alex", true),
        ("Series", true),
        ("loose.cbz", false),
        (".gideon", true),
        ("@notadir", false),
        ("@", true),
    ]
    .iter()
    .map(|(name, is_dir)| DirItem {
        name: name.to_string(),
        is_dir: *is_dir,
    })
    .collect();
    assert_eq!(
        discover(Some(&items)),
        vec!["alex".to_string(), "bo".to_string()]
    );
}

#[test]
fn discovery_of_an_unreadable_root_takes_nothing_away() {
    assert!(discover(None).is_empty());
}

#[test]
fn conversion_loses_no_file_and_no_byte() {
    let files = ["Series A", "Series B", "loose.cbz", ".gideon", "cover art.png"];
    let mut root = Root::new(&files);
    root.convert("me").unwrap();
    assert_eq!(root.target.unwrap(), files);
    assert!(root.items.is_empty());
}

#[test]
fn a_failed_conversion_leaves_every_file_in_place() {
    // A conversion that can't complete must leave the library exactly as it
    // was, never half-moved, wherever it fails.
    for fail_at in 0..3 {
        let mut root = Root::new(&["Series", "@bo", "loose.cbz", ".gideon"]);
        root.fail_at = Some(fail_at);
        let result = root.convert("me");
        assert!(
            result.is_err(),
            "the conversion must fail, not half-succeed"
        );
        root.items.sort();
        assert_eq!(
            root.items,
            vec![".gideon", "@bo", "Series", "loose.cbz"],
            "every file must still be there"
        );
        assert_eq!(root.target, None);
    }
}

#[test]
fn a_stray_file_that_starts_with_an_at_sign_moves_too() {
    let mut root = Root::new(&["@notadir", "a.cbz"]);
    assert_eq!(root.convert("me").unwrap(), "/r/@me");
    assert!(root.items.is_empty(), "the root is a pure container");
    assert_eq!(root.target.unwrap(), vec!["@notadir", "a.cbz"]);
}

#[test]
fn what_cannot_be_put_back_is_not_lost() {
    let mut root = Root::new(&["a", "b", "c"]);
    root.fail_at = Some(2);
    root.stuck = true;
    assert!(root.convert("me").is_err());
    assert_eq!(root.items, vec!["c"]);
    assert_eq!(root.target.unwrap(), vec!["a", "b"]);
}

#[test]
fn conversion_refuses_bad_and_taken_names() {
    let mut root = Root::new(&["Series", "@alex"]);
    assert!(root.convert("default").is_err());
    assert!(root.convert("  ").is_err());
    assert!(root.convert("alex").is_err(), "@alex is taken");
    // Nothing moved.
    assert_eq!(root.items, vec!["Series", "@alex"]);

    assert!(matches!(
        convert_default("/r", " @x ", false, &Vec::new()),
        Err(Error::ConvertProfile(m)) if m == "\"@x\" isn't a usable profile name"
    ));
    assert!(matches!(
        convert_default("/r", " alex", true, &Vec::new()),
        Err(Error::ConvertProfile(m)) if m == "profile \"alex\" already has a library at /r/@alex"
    ));
}

#[test]
fn converting_an_empty_root_just_makes_the_directory() {
    let mut root = Root::new(&[]);
    root.convert("me").unwrap();
    assert_eq!(root.target, Some(Vec::new()));
}

#[test]
fn a_target_that_cannot_be_made_ends_the_conversion() {
    let mut conversion = convert_default("/r", "me", false, &vec![item("a")]).unwrap();
    assert_eq!(conversion.step(), ConvertStep::CreateTarget("/r/@me".into()));
    conversion.done(false);
    assert_eq!(conversion.step(), ConvertStep::GivenUp);
    conversion.done(true);
    assert_eq!(conversion.step(), ConvertStep::GivenUp);
}
