use dep2j::dependency::DependencyParser;

/**
 * DependencyParser::parse()
 *
 * A minimal rule yields exactly one entry with one prerequisite.
 */
#[test]
fn single_rule_round_trip() {
    let mut parser = DependencyParser::new();

    parser.parse(Vec::from("a: b")).unwrap();

    assert_eq!(1, parser.deps.len());
    assert_eq!(b"a", parser.deps[0].target.as_slice());
    assert_eq!(1, parser.deps[0].prerequisites.len());
    assert_eq!(b"b", parser.deps[0].prerequisites[0].as_slice());
}

/**
 * DependencyParser::parse()
 *
 * Two targets sharing one rule each receive the whole prerequisite list,
 * in order.
 */
#[test]
fn multi_target_fan_out() {
    let mut parser = DependencyParser::new();

    parser.parse(Vec::from("a b: c d")).unwrap();

    assert_eq!(2, parser.deps.len());
    assert_eq!(b"a", parser.deps[0].target.as_slice());
    assert_eq!(b"b", parser.deps[1].target.as_slice());
    for dep in &parser.deps {
        assert_eq!(2, dep.prerequisites.len());
        assert_eq!(b"c", dep.prerequisites[0].as_slice());
        assert_eq!(b"d", dep.prerequisites[1].as_slice());
    }
}

/**
 * DependencyParser::parse()
 *
 * A backslash-newline pair continues the prerequisite list onto the next
 * line without becoming part of any token.
 */
#[test]
fn line_continuation() {
    let mut parser = DependencyParser::new();

    parser.parse(Vec::from("a: b \\\n c")).unwrap();

    assert_eq!(1, parser.deps.len());
    assert_eq!(b"a", parser.deps[0].target.as_slice());
    assert_eq!(2, parser.deps[0].prerequisites.len());
    assert_eq!(b"b", parser.deps[0].prerequisites[0].as_slice());
    assert_eq!(b"c", parser.deps[0].prerequisites[1].as_slice());
}

/**
 * DependencyParser::parse()
 *
 * Two rules for the same target merge into one entry, prerequisites in
 * first-seen order.
 */
#[test]
fn cross_rule_merge() {
    let mut parser = DependencyParser::new();

    parser.parse(Vec::from("a: b\na: c")).unwrap();

    assert_eq!(1, parser.deps.len());
    assert_eq!(b"a", parser.deps[0].target.as_slice());
    assert_eq!(2, parser.deps[0].prerequisites.len());
    assert_eq!(b"b", parser.deps[0].prerequisites[0].as_slice());
    assert_eq!(b"c", parser.deps[0].prerequisites[1].as_slice());
}

/**
 * DependencyParser::parse()
 *
 * Repeated prerequisites do not repeat in the merged entry, whether they
 * repeat within one rule or across rules.
 */
#[test]
fn duplicate_prerequisites_dropped() {
    let mut parser = DependencyParser::new();

    parser.parse(Vec::from("a: b b\na: c b")).unwrap();

    assert_eq!(1, parser.deps.len());
    assert_eq!(2, parser.deps[0].prerequisites.len());
    assert_eq!(b"b", parser.deps[0].prerequisites[0].as_slice());
    assert_eq!(b"c", parser.deps[0].prerequisites[1].as_slice());
}

/**
 * DependencyParser::merge_deps()
 *
 * Merging entries that are already merged changes nothing.
 */
#[test]
fn merge_twice_is_stable() {
    let mut parser = DependencyParser::new();

    parser.parse(Vec::from("a: b\nb: c\na: d b")).unwrap();

    let targets: Vec<Vec<u8>> = parser.deps.iter().map(|d| d.target.clone()).collect();
    let prereqs: Vec<Vec<Vec<u8>>> = parser.deps.iter().map(|d| d.prerequisites.clone()).collect();

    parser.merge_deps();

    assert_eq!(targets.len(), parser.deps.len());
    for (k, dep) in parser.deps.iter().enumerate() {
        assert_eq!(targets[k], dep.target);
        assert_eq!(prereqs[k], dep.prerequisites);
    }
}

/**
 * DependencyParser::parse()
 *
 * A comment line before any rule contributes nothing.
 */
#[test]
fn comment_before_rules() {
    let mut parser = DependencyParser::new();

    parser.parse(Vec::from("#a: b\n")).unwrap();

    assert_eq!(0, parser.deps.len());
}

/**
 * DependencyParser::parse()
 *
 * A comment inside a prerequisite list runs to the end of the line and
 * ends the rule there.
 */
#[test]
fn comment_in_prerequisites() {
    let mut parser = DependencyParser::new();

    parser.parse(Vec::from("a: b # c\nd: e")).unwrap();

    assert_eq!(2, parser.deps.len());
    assert_eq!(b"a", parser.deps[0].target.as_slice());
    assert_eq!(1, parser.deps[0].prerequisites.len());
    assert_eq!(b"b", parser.deps[0].prerequisites[0].as_slice());
    assert_eq!(b"d", parser.deps[1].target.as_slice());
    assert_eq!(1, parser.deps[1].prerequisites.len());
    assert_eq!(b"e", parser.deps[1].prerequisites[0].as_slice());
}

/**
 * DependencyParser::parse()
 *
 * A comment marker inside a target list aborts the parse, and no partial
 * output is kept.
 */
#[test]
fn comment_in_targets_is_error() {
    let mut parser = DependencyParser::new();

    let res = parser.parse(Vec::from("a # b: c"));

    assert!(res.is_err());
    assert_eq!(0, parser.deps.len());
}

/**
 * DependencyParser::parse()
 *
 * A newline before the colon leaves the target list incomplete: the parse
 * aborts and no partial output is kept.
 */
#[test]
fn incomplete_targets_is_error() {
    let mut parser = DependencyParser::new();

    let res = parser.parse(Vec::from("a: b\nc d\ne: f"));

    assert!(res.is_err());
    assert_eq!(0, parser.deps.len());
}

/**
 * DependencyParser::parse()
 *
 * A target list cut off by the end of the buffer is an error too.
 */
#[test]
fn unterminated_targets_is_error() {
    let mut parser = DependencyParser::new();

    let res = parser.parse(Vec::from("abc"));

    assert!(res.is_err());
    assert_eq!(0, parser.deps.len());
}

/**
 * DependencyParser::parse()
 *
 * A new parse call replaces the previous output entirely.
 */
#[test]
fn reparse_replaces_output() {
    let mut parser = DependencyParser::new();

    parser.parse(Vec::from("a: b\nc: d")).unwrap();
    assert_eq!(2, parser.deps.len());

    parser.parse(Vec::from("e: f")).unwrap();

    assert_eq!(1, parser.deps.len());
    assert_eq!(b"e", parser.deps[0].target.as_slice());
    assert_eq!(1, parser.deps[0].prerequisites.len());
    assert_eq!(b"f", parser.deps[0].prerequisites[0].as_slice());
}

/**
 * DependencyParser::parse()
 *
 * An escaped space stays inside a target name instead of splitting it.
 */
#[test]
fn escaped_space_in_target() {
    let mut parser = DependencyParser::new();

    parser.parse(Vec::from("a\\ b: c")).unwrap();

    assert_eq!(1, parser.deps.len());
    assert_eq!(b"a\\ b", parser.deps[0].target.as_slice());
    assert_eq!(1, parser.deps[0].prerequisites.len());
    assert_eq!(b"c", parser.deps[0].prerequisites[0].as_slice());
}

/**
 * DependencyParser::parse()
 *
 * The position of a target in the output equals the position of its first
 * occurrence in the input, whatever later rules say.
 */
#[test]
fn first_seen_order_kept() {
    let mut parser = DependencyParser::new();

    parser.parse(Vec::from("x: a\ny: b\nx: c\nz: d\ny: e")).unwrap();

    assert_eq!(3, parser.deps.len());
    assert_eq!(b"x", parser.deps[0].target.as_slice());
    assert_eq!(b"y", parser.deps[1].target.as_slice());
    assert_eq!(b"z", parser.deps[2].target.as_slice());
    assert_eq!(b"a", parser.deps[0].prerequisites[0].as_slice());
    assert_eq!(b"c", parser.deps[0].prerequisites[1].as_slice());
}

/**
 * DependencyParser::parse()
 *
 * The colon itself completes the target list: a comment marker directly
 * after it belongs to the prerequisite list and is benign.
 */
#[test]
fn comment_right_after_colon() {
    let mut parser = DependencyParser::new();

    parser.parse(Vec::from("a:#b\nc: d")).unwrap();

    assert_eq!(2, parser.deps.len());
    assert_eq!(b"a", parser.deps[0].target.as_slice());
    assert_eq!(0, parser.deps[0].prerequisites.len());
    assert_eq!(b"c", parser.deps[1].target.as_slice());
    assert_eq!(1, parser.deps[1].prerequisites.len());
    assert_eq!(b"d", parser.deps[1].prerequisites[0].as_slice());
}

/**
 * DependencyParser::parse()
 *
 * An escaped colon does not complete the target list, so a comment marker
 * after it is still inside the target list: fatal.
 */
#[test]
fn comment_after_escaped_colon_is_error() {
    let mut parser = DependencyParser::new();

    let res = parser.parse(Vec::from("a\\:#x: y"));

    assert!(res.is_err());
    assert_eq!(0, parser.deps.len());
}

/**
 * DependencyParser::parse()
 *
 * A space before the colon never emits an empty target.
 */
#[test]
fn no_empty_target_before_colon() {
    let mut parser = DependencyParser::new();

    parser.parse(Vec::from("a : \n")).unwrap();

    assert_eq!(1, parser.deps.len());
    assert_eq!(b"a", parser.deps[0].target.as_slice());
    assert_eq!(0, parser.deps[0].prerequisites.len());
}
