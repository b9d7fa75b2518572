use rcpsp::psp_lib_parser::parse_psp_lib;

fn test_file() -> String {
    let lines = [
        "************************************************************************",
        "file with basedata            : J1201_.BAS",
        "initial value random generator: 24418",
        "************************************************************************",
        "projects                      :  1",
        "jobs (incl. supersource/sink ):  122",
        "horizon                       :  646",
        "RESOURCES",
        "  - renewable                 :  4   R",
        "  - nonrenewable              :  0   N",
        "  - doubly constrained        :  0   D",
        "************************************************************************",
        "PROJECT INFORMATION:",
        "pronr.  #jobs rel.date duedate tardcost  MPM-Time",
        "    1    120      0      126       26      126",
        "************************************************************************",
        "PRECEDENCE RELATIONS:",
        "jobnr.    #modes  #successors   successors",
        "   1        1          3           2   3   4",
        "",
    ];
    lines.join("\n")
}

#[test]
fn file_metadata_parsing() {
    let content = test_file();
    let file_meta = rcpsp::psp_lib_parser::file_metadata_parser(&content, 0);
    assert!(file_meta.is_ok());

    let ((file_with_basedata, initial_rng), _) = file_meta.unwrap();
    assert_eq!(file_with_basedata, "J1201_.BAS");
    assert_eq!(initial_rng, 24418);
}

#[test]
fn metadata_parsing() {
    let content = test_file();
    let (_, behind) = rcpsp::psp_lib_parser::file_metadata_parser(&content, 0).unwrap();

    let meta = rcpsp::psp_lib_parser::metadata_parser(&content, behind);
    assert!(meta.is_ok());
}

#[test]
fn project_info_parser() {
    let content = test_file();
    let (_, behind) = rcpsp::psp_lib_parser::file_metadata_parser(&content, 0).unwrap();
    let (_, behind) = rcpsp::psp_lib_parser::metadata_parser(&content, behind).unwrap();

    let meta = rcpsp::psp_lib_parser::project_info_parser(&content, behind);
    assert!(meta.is_ok());
}

#[test]
fn full_raw_parsing() {
    let content = test_file();
    let first = rcpsp::psp_lib_parser::file_metadata_parser(&content, 0);
    assert!(first.is_ok());
    let (_, behind) = first.unwrap();
    let second = rcpsp::psp_lib_parser::metadata_parser(&content, behind);
    assert!(second.is_ok());
    let (_, behind) = second.unwrap();

    let meta = rcpsp::psp_lib_parser::project_info_parser(&content, behind);
    assert!(meta.is_ok());
}

#[test]
fn parse_psp_lib_test() {
    let output = parse_psp_lib(&test_file());

    assert!(output.is_ok());
}

#[test]
fn separator_parsing_fail() {
    let content = "asd";

    let output = parse_psp_lib(content);

    assert!(output.is_err());
}
