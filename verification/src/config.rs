use vstd::prelude::*;

verus! {

/// The paths handed over on the command line: the two model files, the
/// folder of gallery images, the folder for annotated output, and the
/// reference image to match against.
pub struct Config {
    pub ultra_model_path: String,
    pub arc_model_path: String,
    pub folder_path: String,
    pub result_folder: String,
    pub test_case_path: String,
}

impl Config {
    /// Reads the five paths out of the argument list. The element at index 0
    /// is the program name; too short a list is a usage error.
    pub fn new(args: &[String]) -> (result: Result<Config, &'static str>)
        ensures
            match result {
                Ok(config) => args@.len() >= 6
                    && config.ultra_model_path@ == args@[1]@
                    && config.arc_model_path@ == args@[2]@
                    && config.folder_path@ == args@[3]@
                    && config.result_folder@ == args@[4]@
                    && config.test_case_path@ == args@[5]@,
                Err(message) => args@.len() < 6 && message@ == "Not enough arguments"@,
            },
    {
        if args.len() < 6 {
            return Err("Not enough arguments");
        }

        let ultra_model_path = args[1].clone();
        let arc_model_path = args[2].clone();
        let folder_path = args[3].clone();
        let result_folder = args[4].clone();
        let test_case_path = args[5].clone();

        Ok(Config {
            ultra_model_path,
            arc_model_path,
            folder_path,
            result_folder,
            test_case_path,
        })
    }
}

} // verus!
