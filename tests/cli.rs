use xdr_codec::{Catalog, Cmd, Error, Kind, ListCmd, Output, Schema, SchemaCmd, SchemaError, Sub, Ty};

fn catalog() -> Catalog {
    Catalog {
        names: vec!["Amount".to_string(), "Memo".to_string(), "Amount".to_string()],
        schema: Schema::new(vec![Ty::Hyper, Ty::Str(28), Ty::UInt]),
    }
}

#[test]
fn list_gives_every_type_with_its_kind() {
    let cmd = Cmd { sub: Sub::List(ListCmd {}) };
    match cmd.run(&catalog()) {
        Ok(Output::Types(es)) => {
            let got: Vec<(String, Kind)> = es.into_iter().map(|e| (e.name, e.kind)).collect();
            assert_eq!(
                got,
                vec![
                    ("Amount".to_string(), Kind::Hyper),
                    ("Memo".to_string(), Kind::Str),
                    ("Amount".to_string(), Kind::UInt),
                ]
            );
        }
        _ => panic!("listing failed"),
    }
}

#[test]
fn schema_picks_the_first_type_of_that_name() {
    let cmd = Cmd { sub: Sub::Schema(SchemaCmd { name: "Amount".to_string() }) };
    assert!(matches!(cmd.run(&catalog()), Ok(Output::Type(0))));
    let cmd = Cmd { sub: Sub::Schema(SchemaCmd { name: "Memo".to_string() }) };
    assert!(matches!(cmd.run(&catalog()), Ok(Output::Type(1))));
}

#[test]
fn schema_of_an_unknown_type_fails() {
    let cmd = Cmd { sub: Sub::Schema(SchemaCmd { name: "Nope".to_string() }) };
    match cmd.run(&catalog()) {
        Err(Error::SchemaError(SchemaError::UnknownType(n))) => assert_eq!(n, "Nope"),
        _ => panic!("expected an unknown type"),
    }
}
