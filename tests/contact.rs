use winvoice_schema::{Contact, ContactKind, Location};

fn place(name: &str, outer: Option<Location>) -> Location {
    Location { id: 0, name: name.into(), outer: outer.map(Box::new) }
}

#[test]
fn display() {
    let earth_view = place("Earth", None);
    let usa_view = place("USA", Some(earth_view));
    let arizona_view = place("Arizona", Some(usa_view));
    let phoenix_view = place("Phoenix", Some(arizona_view));
    let street_view = place("1337 Some Street", Some(phoenix_view));

    assert_eq!(
        Contact { kind: ContactKind::Address(street_view), label: "Office".into() }.to_string(),
        "Office: 1337 Some Street, Phoenix, Arizona, USA, Earth"
    );
    assert_eq!(
        Contact { kind: ContactKind::Email("foo@bar.io".into()), label: "Email".into() }
            .to_string(),
        "Email: foo@bar.io"
    );
    assert_eq!(
        Contact { kind: ContactKind::Phone("1-603-555-5555".into()), label: "Cellphone".into() }
            .to_string(),
        "Cellphone: 1-603-555-5555"
    );
}

#[test]
fn location_chain_renders_innermost_first() {
    let chain = place(
        "1337 Some Street",
        Some(place("Phoenix", Some(place("Arizona", Some(place("USA", Some(place("Earth", None)))))))),
    );
    assert_eq!(chain.to_string(), "1337 Some Street, Phoenix, Arizona, USA, Earth");
}

#[test]
fn location_without_outer_is_its_name() {
    assert_eq!(place("Earth", None).to_string(), "Earth");
}
