//! Formatting scenarios with their expected output.
use org_formatter::{format_org, FormatOptions};


    #[test]
    fn test_heading_spacing() {
        let input = "
* Heading 1

Some text.


** Heading 2
:PROPERTIES:
:CUSTOM_ID: 123
:END:
More text.
";
        let expected = "* Heading 1

Some text.

** Heading 2
:PROPERTIES:
:CUSTOM_ID: 123
:END:

More text.
";
        assert_eq!(format_org(input, &FormatOptions::default()), expected);
    }

    #[test]
    fn test_list_items() {
        let input = "
-    Item 1 with lots of spaces
- Item 2
+ Item 3
  1.    Ordered list item
";
        let expected = "- Item 1 with lots of spaces
- Item 2
+ Item 3
  1. Ordered list item
";
        assert_eq!(format_org(input, &FormatOptions::default()), expected);
    }

    #[test]
    fn test_block_preservation() {
        let input = "
#+begin_src rust
fn main() {
    println!(\"Hello World\");


    // consecutive spaces are kept here!
}
#+end_src
";
        let expected = "#+BEGIN_SRC rust
fn main() {
    println!(\"Hello World\");


    // consecutive spaces are kept here!
}
#+END_SRC
";
        assert_eq!(format_org(input, &FormatOptions::default()), expected);
    }

    #[test]
    fn test_enhanced_drawer_formatting() {
        let input = "* Heading 1
  :PROPERTIES:
  :CUSTOM_ID:     456
  :ANOTHER_PROP:  abc
  :END:
Some text.";
        let expected = "* Heading 1
  :PROPERTIES:
  :CUSTOM_ID: 456
  :ANOTHER_PROP: abc
  :END:

Some text.
";
        assert_eq!(format_org(input, &FormatOptions::default()), expected);
    }

    #[test]
    fn test_heading_leading_spaces() {
        let input = "   ** Subheading 1.1
More text.";
        let expected = "** Subheading 1.1

More text.
";
        assert_eq!(format_org(input, &FormatOptions::default()), expected);
    }

    #[test]
    fn test_heading_followed_by_text_no_newline() {
        let input = "* Heading 1
Some body text.";
        let expected = "* Heading 1

Some body text.
";
        assert_eq!(format_org(input, &FormatOptions::default()), expected);
    }

    #[test]
    fn test_block_type_lowercase() {
        let input = "#+BEGIN_SRC RUST :tangle yes
fn main() {}
#+END_SRC";
        let expected = "#+BEGIN_SRC rust :tangle yes
fn main() {}
#+END_SRC
";
        assert_eq!(format_org(input, &FormatOptions::default()), expected);
    }

    #[test]
    fn test_list_items_alphabetical_and_stars() {
        let input = "
  - item 1
  * item 2
  a.   alphabetical 1
  b)   alphabetical 2
";
        let expected = "  - item 1
  * item 2
  a. alphabetical 1
  b) alphabetical 2
";
        assert_eq!(format_org(input, &FormatOptions::default()), expected);
    }

    #[test]
    fn test_custom_heading_to_body_spacing_0() {
        let input = "* Heading 1

Some text.
** Heading 2
Some text.";
        let options = FormatOptions {
            heading_to_body_spacing: 0,
            heading_to_heading_spacing: 1,
            ..FormatOptions::default()
        };
        let expected = "* Heading 1
Some text.

** Heading 2
Some text.
";
        assert_eq!(format_org(input, &options), expected);
    }

    #[test]
    fn test_custom_heading_to_heading_spacing_0() {
        let input = "* Heading 1

** Heading 2
Some text.";
        let options = FormatOptions {
            heading_to_body_spacing: 1,
            heading_to_heading_spacing: 0,
            ..FormatOptions::default()
        };
        let expected = "* Heading 1
** Heading 2

Some text.
";
        assert_eq!(format_org(input, &options), expected);
    }

    #[test]
    fn test_wrap_paragraphs_disabled_by_default() {
        let input = "This is a long line that should not be wrapped because paragraph wrapping is disabled by default.";
        let expected = "This is a long line that should not be wrapped because paragraph wrapping is disabled by default.
";
        assert_eq!(format_org(input, &FormatOptions::default()), expected);
    }

    #[test]
    fn test_wrap_paragraphs_enabled() {
        let input = "This is a long paragraph that should be wrapped to at most forty characters width. It has multiple words.";
        let options = FormatOptions {
            wrap_paragraphs: true,
            fill_column: 40,
            ..FormatOptions::default()
        };
        let expected = "This is a long paragraph that should be
wrapped to at most forty characters
width. It has multiple words.
";
        assert_eq!(format_org(input, &options), expected);
    }

    #[test]
    fn test_wrap_indented_paragraphs() {
        let input = "  This is an indented paragraph that has
  multiple lines and should preserve
  the two spaces indentation.";
        let options = FormatOptions {
            wrap_paragraphs: true,
            fill_column: 50,
            ..FormatOptions::default()
        };
        let expected = "  This is an indented paragraph that has multiple
  lines and should preserve the two spaces
  indentation.
";
        assert_eq!(format_org(input, &options), expected);
    }

    #[test]
    fn test_custom_heading_to_body_spacing_2() {
        let input = "* Heading 1
Some body text.
** Heading 2
Some other body text.";
        let options = FormatOptions {
            heading_to_body_spacing: 2,
            ..FormatOptions::default()
        };
        let expected = "* Heading 1


Some body text.

** Heading 2


Some other body text.
";
        assert_eq!(format_org(input, &options), expected);
    }

    #[test]
    fn test_custom_heading_to_body_spacing_with_drawer_and_wrap() {
        let input = "* Heading 1
  :PROPERTIES:
  :CUSTOM_ID: abc
  :END:
This is some body text that will be wrapped because wrap paragraphs is enabled and it is quite long.
* Heading 2
This is some other body text under heading 2.";
        let options = FormatOptions {
            heading_to_body_spacing: 2,
            wrap_paragraphs: true,
            fill_column: 40,
            ..FormatOptions::default()
        };
        let expected = "* Heading 1
  :PROPERTIES:
  :CUSTOM_ID: abc
  :END:


This is some body text that will be
wrapped because wrap paragraphs is
enabled and it is quite long.

* Heading 2


This is some other body text under
heading 2.
";
        assert_eq!(format_org(input, &options), expected);
    }

    #[test]
    fn test_wrap_paragraphs_korean() {
        let input = "오알지포매터는 이맥스의 기능을 러스트로 구현하여 빠르게 문서를 포맷팅할 수 있는 아주 유용한 도구입니다.";
        let options = FormatOptions {
            wrap_paragraphs: true,
            fill_column: 40,
            ..FormatOptions::default()
        };
        let expected = "오알지포매터는 이맥스의 기능을 러스트로
구현하여 빠르게 문서를 포맷팅할 수 있는
아주 유용한 도구입니다.
";
        assert_eq!(format_org(input, &options), expected);
    }

    #[test]
    fn test_wrap_lists() {
        let input = "  - This is a very long list item line that should be nicely wrapped to multiple lines preserving the bullet indentation.";
        let options = FormatOptions {
            wrap_lists: true,
            fill_column: 40,
            ..FormatOptions::default()
        };
        let expected = "  - This is a very long list item line
    that should be nicely wrapped to
    multiple lines preserving the bullet
    indentation.
";
        assert_eq!(format_org(input, &options), expected);
    }

    #[test]
    fn test_wrap_lists_korean() {
        let input = "  * 매우 긴 한글 리스트 아이템입니다. 이것은 지정된 너비에 맞추어 여러 줄로 깔끔하게 래핑되어야 합니다.";
        let options = FormatOptions {
            wrap_lists: true,
            fill_column: 40,
            ..FormatOptions::default()
        };
        let expected = "  * 매우 긴 한글 리스트 아이템입니다.
    이것은 지정된 너비에 맞추어 여러
    줄로 깔끔하게 래핑되어야 합니다.
";
        assert_eq!(format_org(input, &options), expected);
    }

    #[test]
    fn test_wrap_lists_ordered() {
        let input = " 1. First ordered item that spans a considerable length to test the ordered list wrapping.";
        let options = FormatOptions {
            wrap_lists: true,
            fill_column: 40,
            ..FormatOptions::default()
        };
        let expected = " 1. First ordered item that spans a
    considerable length to test the
    ordered list wrapping.
";
        assert_eq!(format_org(input, &options), expected);
    }
