use todo_cli::todo_list::TodoEntry;

#[test]
fn roman_numerals_of_single_values() {
    assert_eq!(TodoEntry::id_to_roman_numeral(1), "I");
    assert_eq!(TodoEntry::id_to_roman_numeral(4), "IV");
    assert_eq!(TodoEntry::id_to_roman_numeral(9), "IX");
    assert_eq!(TodoEntry::id_to_roman_numeral(40), "XL");
    assert_eq!(TodoEntry::id_to_roman_numeral(90), "XC");
    assert_eq!(TodoEntry::id_to_roman_numeral(400), "CD");
    assert_eq!(TodoEntry::id_to_roman_numeral(900), "CM");
}

#[test]
fn roman_numerals_of_compound_values() {
    assert_eq!(TodoEntry::id_to_roman_numeral(1994), "MCMXCIV");
    assert_eq!(TodoEntry::id_to_roman_numeral(3999), "MMMCMXCIX");
    assert_eq!(TodoEntry::id_to_roman_numeral(2), "II");
    assert_eq!(TodoEntry::id_to_roman_numeral(14), "XIV");
    assert_eq!(TodoEntry::id_to_roman_numeral(5000), "MMMMM");
}

#[test]
fn roman_numeral_of_non_positive_id_is_invalid() {
    assert_eq!(TodoEntry::id_to_roman_numeral(0), "Invalid");
    assert_eq!(TodoEntry::id_to_roman_numeral(-7), "Invalid");
    assert_eq!(TodoEntry::id_to_roman_numeral(i32::MIN), "Invalid");
}

#[test]
fn roman_numerals_are_distinct() {
    let mut seen = std::collections::HashSet::new();
    for i in 1..=4000 {
        assert!(seen.insert(TodoEntry::id_to_roman_numeral(i)));
    }
}
