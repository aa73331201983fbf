use osm2streets::names::NamePerLanguage;
use osm2streets::tags::Tags;

#[test]
fn languages_come_in_ascending_order() {
    let mut t = Tags::empty();
    t.insert("name", "Hauptstrasse");
    t.insert("name:fr", "Rue principale");
    t.insert("name:de", "Hauptstraße");
    t.insert("name:en", "Main Street");
    let names = NamePerLanguage::new(&t).unwrap();
    let langs: Vec<String> = names.languages().into_iter().cloned().collect();
    assert_eq!(langs, vec!["de".to_string(), "en".to_string(), "fr".to_string()]);
    assert_eq!(names.get(None), "Hauptstrasse");
    let fr = "fr".to_string();
    assert_eq!(names.get(Some(&fr)), "Rue principale");
}

#[test]
fn unnamed_has_no_languages() {
    let names = NamePerLanguage::unnamed();
    assert!(names.languages().is_empty());
    assert_eq!(names.get(None), "unnamed");
}
