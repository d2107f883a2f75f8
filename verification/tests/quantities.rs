use kuberina_solver::quantity::{read_quantity, QuantityContext, Scale};

fn read(val: &str, ctx: QuantityContext) -> (String, Scale) {
    let q = read_quantity(val, ctx).unwrap();
    (q.numeral, q.scale)
}

#[test]
fn bare_numbers_are_read_in_every_context() {
    assert_eq!(read("4", QuantityContext::Cpu), ("4".to_string(), Scale::Unit));
    assert_eq!(read("0.5", QuantityContext::Cpu), ("0.5".to_string(), Scale::Unit));
    assert_eq!(read("8.0", QuantityContext::Memory), ("8.0".to_string(), Scale::Unit));
    assert_eq!(read("500.0", QuantityContext::Throughput), ("500.0".to_string(), Scale::Unit));
    assert_eq!(read("-1e3", QuantityContext::Memory), ("-1e3".to_string(), Scale::Unit));
    assert_eq!(read("inf", QuantityContext::Cpu), ("inf".to_string(), Scale::Unit));
}

#[test]
fn surrounding_white_space_is_ignored() {
    assert_eq!(read("  300m\t", QuantityContext::Cpu), ("300".to_string(), Scale::Milli));
    assert_eq!(read(" 2 ", QuantityContext::Cpu), ("2".to_string(), Scale::Unit));
}

#[test]
fn cpu_reads_millicores() {
    assert_eq!(read("300m", QuantityContext::Cpu), ("300".to_string(), Scale::Milli));
    assert_eq!(read("6000m", QuantityContext::Cpu), ("6000".to_string(), Scale::Milli));
}

#[test]
fn memory_reads_binary_units() {
    assert_eq!(read("1048576Ki", QuantityContext::Memory), ("1048576".to_string(), Scale::Kibi));
    assert_eq!(read("512Mi", QuantityContext::Memory), ("512".to_string(), Scale::Mebi));
    assert_eq!(read("8Gi", QuantityContext::Memory), ("8".to_string(), Scale::Gibi));
    assert_eq!(read("2Ti", QuantityContext::Memory), ("2".to_string(), Scale::Tebi));
    assert_eq!(read("256Gi", QuantityContext::Memory), ("256".to_string(), Scale::Gibi));
}

#[test]
fn throughput_reads_decimal_units() {
    assert_eq!(read("1000k", QuantityContext::Throughput), ("1000".to_string(), Scale::Kilo));
    assert_eq!(read("500M", QuantityContext::Throughput), ("500".to_string(), Scale::Mega));
    assert_eq!(read("10G", QuantityContext::Throughput), ("10".to_string(), Scale::Giga));
    assert_eq!(read("5G", QuantityContext::Throughput), ("5".to_string(), Scale::Giga));
}

#[test]
fn a_suffix_belongs_to_its_context() {
    // "M" is MiB for memory and MB/s for throughput; "Mi" is no throughput unit.
    assert_eq!(read("512M", QuantityContext::Memory), ("512".to_string(), Scale::Mebi));
    assert_eq!(read("500M", QuantityContext::Throughput), ("500".to_string(), Scale::Mega));
    let err = read_quantity("512Mi", QuantityContext::Throughput).err().unwrap();
    assert!(err.contains("unrecognized throughput suffix"), "{err}");
    let err = read_quantity("500G", QuantityContext::Memory).err().unwrap();
    assert_eq!(
        err,
        "unrecognized memory suffix in '500G', expected Ki/Mi/Gi/Ti or bare number"
    );
    let err = read_quantity("2Gi", QuantityContext::Cpu).err().unwrap();
    assert_eq!(
        err,
        "unrecognized CPU suffix in '2Gi', expected bare number or 'm' (millicore)"
    );
}

#[test]
fn empty_quantity_is_rejected() {
    assert_eq!(
        read_quantity("", QuantityContext::Cpu).err().unwrap(),
        "empty quantity string"
    );
    assert_eq!(
        read_quantity("   ", QuantityContext::Memory).err().unwrap(),
        "empty quantity string"
    );
}

#[test]
fn unknown_suffix_is_rejected() {
    let err = read_quantity("500X", QuantityContext::Memory).err().unwrap();
    assert!(err.contains("unrecognized"), "error should describe issue: {err}");
}

#[test]
fn numeral_before_a_suffix_must_be_a_number() {
    let err = read_quantity("abcMi", QuantityContext::Memory).err().unwrap();
    assert_eq!(
        err,
        "invalid memory quantity 'abcMi': numeric part 'abc' is not a number"
    );
    let err = read_quantity("m", QuantityContext::Cpu).err().unwrap();
    assert_eq!(err, "invalid CPU quantity 'm': numeric part '' is not a number");
    let err = read_quantity("1.2.3G", QuantityContext::Throughput).err().unwrap();
    assert!(err.contains("not a number"), "{err}");
}
