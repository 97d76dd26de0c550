use parametrizer::term::{parametrize_string, respectful_symbol_split};

#[test]
fn test_splitting() {
    let no_split = respectful_symbol_split("15*t", '+', '(', ')').expect("Splitting failed when there was nothing to split.");
    let ignore_split = respectful_symbol_split("(15*t)", '*', '(', ')').expect("Splitting failed when the splitter was in parentheses.");
    let easy_split = respectful_symbol_split("9+3*t+6", '+', '(', ')').expect("Splitting failed with no parentheses.");
    let hard_split = respectful_symbol_split("1+(6+9*t)+(6+(5+t))", '+', '(', ')').expect("Splitting failed with parentheses.");

    let right_split = respectful_symbol_split("(t+1))*5", '+', '(', ')');
    let left_split = respectful_symbol_split("((t+1)*5", '+', '(', ')');

    assert_eq!(no_split, ["15*t"]);
    assert_eq!(ignore_split, ["(15*t)"]);
    assert_eq!(easy_split, ["9", "3*t", "6"]);
    assert_eq!(hard_split, ["1", "(6+9*t)", "(6+(5+t))"]);

    match right_split {
        Ok(_) => panic!("Expected too many right parentheses error."),
        Err(e) => assert_eq!(e.reason(), "Malformed split, right exceeded left."),
    }

    match left_split {
        Ok(_) => panic!("Expected too many left parentheses error."),
        Err(e) => assert_eq!(e.reason(), "Malformed split, left exceeded right."),
    }
}

#[test]
fn test_division() {
    let division = parametrize_string("6/(t+1)/2", &Vec::new());

    match division {
        Ok(_) => panic!("Expected too many division terms error."),
        Err(e) => assert_eq!(e.reason(), "More than one division symbol in a term."),
    }
}

#[test]
fn split_keeps_empty_segments() {
    assert_eq!(respectful_symbol_split("+1+", '+', '(', ')').unwrap(), ["", "1", ""]);
    assert_eq!(respectful_symbol_split("", '+', '(', ')').unwrap(), [""]);
}

#[test]
fn split_segments_rejoin_and_resplit_to_themselves() {
    let text = "1+(6+9*t)+(6+(5+t))";
    let segments = respectful_symbol_split(text, '+', '(', ')').unwrap();
    assert_eq!(segments.join("+"), text);
    for segment in &segments {
        assert_eq!(respectful_symbol_split(segment, '+', '(', ')').unwrap(), [*segment]);
    }
}
