use schema_resolver::{CentralSchemaResolver, Source};

const SEPARATOR: &str =
    "================================================================================";

fn file(name: &str, content: &str) -> (String, Source) {
    (format!("{}.msg", name), Source::Text(format!("{}\n", content)))
}

fn installed() -> CentralSchemaResolver {
    let mut resolver = CentralSchemaResolver::new();
    resolver.register_msg_dir(
        "builtin_interfaces",
        &vec![
            file("Time", "# The seconds component.\nint32 sec\n\n# The nanoseconds component.\nuint32 nanosec"),
            file("Duration", "int32 sec\nuint32 nanosec"),
        ],
    );
    resolver.register_msg_dir(
        "std_msgs",
        &vec![
            file(
                "Header",
                "# Two-integer timestamp.\nbuiltin_interfaces/Time stamp\n\n# Transform frame.\nstring frame_id",
            ),
            file(
                "MultiArrayDimension",
                "string label   # label of given dimension\nuint32 size    # size of given dimension (in type units)\nuint32 stride  # stride of given dimension",
            ),
            file(
                "MultiArrayLayout",
                "# The multiarray declares a generic multi-dimensional array.\n\nMultiArrayDimension[] dim # Array of dimension properties\nuint32 data_offset        # padding bytes at front of data",
            ),
            file(
                "Float64MultiArray",
                "# Please look at the MultiArrayLayout message definition.\n\nMultiArrayLayout  layout        # specification of data layout\nfloat64[]         data          # array of data",
            ),
        ],
    );
    resolver.register_msg_dir(
        "sensor_msgs",
        &vec![
            file(
                "CompressedImage",
                "# This message contains a compressed image.\n\nstd_msgs/Header header # Header timestamp\n\nstring format                # Specifies the format of the data\n\nuint8[] data                 # Compressed image buffer",
            ),
            file(
                "BatteryState",
                "# Constants are chosen to match the enums in the linux kernel\nuint8 POWER_SUPPLY_STATUS_UNKNOWN = 0\nuint8 POWER_SUPPLY_STATUS_CHARGING = 1\n\nstd_msgs/Header  header\nfloat32 voltage          # Voltage in Volts (Mandatory)\nfloat32 temperature      # Temperature in Degrees Celsius\nbool    present          # True if the battery is present\n\nfloat32[] cell_voltage   # An array of individual cell voltages\nstring location          # The location into which the battery is inserted\nstring serial_number     # The best approximation of the battery serial number",
            ),
        ],
    );
    resolver.register_msg_dir(
        "rcl_interfaces",
        &vec![
            file(
                "FloatingPointRange",
                "# Represents bounds and a step value for a floating point typed parameter.\n\n# Start value for valid values, inclusive.\nfloat64 from_value\n\n# End value for valid values, inclusive.\nfloat64 to_value\n\nfloat64 step",
            ),
            file(
                "ParameterDescriptor",
                "string name\nuint8 type\nstring description\nstring additional_constraints\nbool read_only false\nbool dynamic_typing false\nFloatingPointRange[<=1] floating_point_range\nIntegerRange[<=1] integer_range",
            ),
            file("IntegerRange", "int64 from_value\nint64 to_value\nuint64 step"),
        ],
    );
    resolver.register_msg_dir(
        "unitree_hg",
        &vec![
            file(
                "LowState",
                "uint8[2] version\nuint8 mode_pr\nuint8 mode_machine\nuint32 tick\nIMUState imu_state\nMotorState[35] motor_state\nuint8[40] wireless_remote\nuint32[4] reserve\nuint32 crc",
            ),
            file(
                "IMUState",
                "float32[4] quaternion\nfloat32[3] gyroscope\nfloat32[3] accelerometer\nfloat32[3] rpy\nint16 temperature",
            ),
            file(
                "MotorState",
                "uint8 mode\nfloat32 q\nfloat32 dq\nfloat32 ddq\nfloat32 tau_est\nint16[2] temperature\nfloat32 vol\nuint32[2] sensor\nuint32 motorstate\nuint32[4] reserve",
            ),
        ],
    );
    resolver
}

fn headers(flat: &str) -> Vec<String> {
    flat.lines().filter(|l| l.starts_with("MSG: ")).map(|l| l[5..].to_string()).collect()
}

#[test]
fn test_register_and_flatten_image() {
    let resolver = installed();

    let flat = resolver.flatten("sensor_msgs/msg/CompressedImage").unwrap();
    println!("{}", flat);
    assert_eq!(headers(&flat), vec!["std_msgs/Header", "builtin_interfaces/Time"]);
    assert_eq!(
        flat,
        format!(
            "{}\n\n{}\nMSG: std_msgs/Header\n{}\n\n{}\nMSG: builtin_interfaces/Time\n{}",
            resolver.resolve("sensor_msgs/msg/CompressedImage").unwrap(),
            SEPARATOR,
            resolver.resolve("std_msgs/msg/Header").unwrap(),
            SEPARATOR,
            resolver.resolve("builtin_interfaces/msg/Time").unwrap()
        )
    );
}

#[test]
fn test_register_joint_msg() {
    let resolver = installed();

    let flat = resolver.flatten("std_msgs/msg/Float64MultiArray").unwrap();
    println!("{}", flat);
    assert_eq!(headers(&flat), vec!["std_msgs/MultiArrayLayout", "std_msgs/MultiArrayDimension"]);
}

#[test]
fn test_register_battery() {
    let resolver = installed();

    let flat = resolver.flatten("sensor_msgs/msg/BatteryState").unwrap();
    println!("{}", flat);
    assert_eq!(headers(&flat), vec!["std_msgs/Header", "builtin_interfaces/Time"]);
    assert!(flat.starts_with("# Constants are chosen to match the enums in the linux kernel\n"));
}

#[test]
fn test_register_lowstate() {
    let resolver = installed();

    let flat = resolver.flatten("unitree_hg/msg/LowState").unwrap();
    println!("{}", flat);
    assert_eq!(headers(&flat), vec!["unitree_hg/IMUState", "unitree_hg/MotorState"]);
}

#[test]
fn test_register_floating_point_range() {
    let resolver = installed();

    let flat = resolver.flatten("rcl_interfaces/msg/FloatingPointRange").unwrap();
    println!("{}", flat);
    assert_eq!(flat, resolver.resolve("rcl_interfaces/msg/FloatingPointRange").unwrap());
    let flat = resolver.flatten("rcl_interfaces/msg/ParameterDescriptor").unwrap();
    assert_eq!(
        headers(&flat),
        vec!["rcl_interfaces/FloatingPointRange", "rcl_interfaces/IntegerRange"]
    );
}

#[test]
fn test_register_all() {
    let resolver = installed();
    assert!(!resolver.is_empty());
    let raw_map = resolver.generate_all_raw().unwrap();
    let flat_map = resolver.generate_all_flattened().unwrap();

    assert_eq!(flat_map.len(), resolver.len());
    assert_eq!(raw_map.len(), resolver.len());
    let names: Vec<String> = flat_map.iter().map(|(name, _)| name.clone()).collect();
    assert_eq!(names, resolver.type_names());
    for ((name, flat), (raw_name, raw)) in flat_map.iter().zip(raw_map.iter()) {
        assert_eq!(name, raw_name);
        assert_eq!(flat, &resolver.flatten(name).unwrap());
        assert_eq!(raw, &resolver.resolve(name).unwrap());
        assert!(flat.starts_with(raw.as_str()));
    }
}
