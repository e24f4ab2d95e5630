use cch_23::routes::six::{match_elfs, ElfReply};
use fancy_regex::Regex;

fn by_regex(input: &str) -> ElfReply {
    let count = |pattern: &str| {
        Regex::new(pattern).unwrap().find_iter(input).count().try_into().unwrap_or(0)
    };
    ElfReply {
        elf: count("elf"),
        elf_on_a_shelf: count("elf on a shelf"),
        shelf_with_no_elf_on_it: count("(?<!elf on a )shelf"),
    }
}

const TEXT: &str = "there is an elf on a shelf on an elf.
      there is also another shelf in Belfast.";

#[test]
fn elves() {
    let elves = match_elfs(TEXT);
    assert_eq!(elves.elf, 5);
}

#[test]
fn elves_and_shelves() {
    let answer_key = ElfReply { elf: 5, elf_on_a_shelf: 1, shelf_with_no_elf_on_it: 1 };
    assert_eq!(match_elfs(TEXT), answer_key);
}

#[test]
fn elf_matches_do_not_overlap() {
    let reply = match_elfs("elf on a shelf on a shelf");
    assert_eq!(reply, ElfReply { elf: 3, elf_on_a_shelf: 1, shelf_with_no_elf_on_it: 0 });
    assert_eq!(match_elfs(""), ElfReply { elf: 0, elf_on_a_shelf: 0, shelf_with_no_elf_on_it: 0 });
}

#[test]
fn elf_counts_agree_with_the_patterns() {
    let samples = [
        TEXT,
        "",
        "elf",
        "elfelfelf",
        "shelfshelf elf on a shelf",
        "elf on a shelf on a shelf on a shelf",
        "élf on a shelf, ÉLF ON A SHELF, elf on a shélf, elf on a  shelf",
        "xelf on a shelfelf on a shelf",
        "lf on a shelf",
    ];
    for s in samples {
        assert_eq!(match_elfs(s), by_regex(s), "{}", s);
    }
}
